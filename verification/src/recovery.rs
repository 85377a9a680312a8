//! Recovery: which logged operations are replayed, and what a collection
//! directory must hold.
//!
//! Scanning the data directory is the caller's work; what it found comes
//! in as plain values.

use vstd::prelude::*;
use vstd::string::StringExecFns;
use crate::error::VectorDbError;
use crate::names::{text_of, NameSet};
use crate::wal::{copy_operation, operations_view, OperationView, WALOperation, WriteAheadLog};
use crate::types::{Vector, VectorView};

verus! {

/// What a scan found of one entry of the data directory.
#[derive(Debug, Clone)]
pub struct DirectoryEntry {
    pub name: String,
    pub is_dir: bool,
    pub has_vectors_file: bool,
    pub has_index_file: bool,
}

/// What a scan found of the files of one collection: the length of
/// `vectors.bin` if it exists, and whether `index.bin` exists.
#[derive(Debug, Clone)]
pub struct CollectionFiles {
    pub name: String,
    pub vectors_len: Option<u64>,
    pub index_exists: bool,
}

/// A directory is a collection if it holds `vectors.bin` or `index.bin`.
pub open spec fn is_collection(entry: DirectoryEntry) -> bool {
    entry.is_dir && (entry.has_vectors_file || entry.has_index_file)
}

/// The names of the collections among the entries.
pub open spec fn discovered(entries: Seq<DirectoryEntry>) -> Set<Seq<char>> {
    Set::new(
        |name: Seq<char>|
            exists|i: int|
                0 <= i < entries.len() && (#[trigger] entries[i]).name@ == name && is_collection(
                    entries[i],
                ),
    )
}

pub open spec fn exists_message(name: Seq<char>) -> Seq<char> {
    "Collection "@ + name + " already exists"@
}

pub open spec fn missing_message(name: Seq<char>) -> Seq<char> {
    "Collection "@ + name + " does not exist"@
}

/// Some vector has no components.
pub open spec fn has_empty(vectors: Seq<VectorView>) -> bool {
    exists|i: int| 0 <= i < vectors.len() && (#[trigger] vectors[i]).data.len() == 0
}

/// Why `operation` is not replayed when the collections in `known` exist,
/// or `None` if it is: a collection is created only if it is not known and
/// deleted only if it is; vectors are inserted and deleted only in known
/// collections, and no vector without components is inserted.
pub open spec fn objection(operation: OperationView, known: Set<Seq<char>>) -> Option<Seq<char>> {
    match operation {
        OperationView::CreateCollection(config) => if known.contains(config.name) {
            Some(exists_message(config.name))
        } else {
            None
        },
        OperationView::DeleteCollection(name) => if known.contains(name) {
            None
        } else {
            Some(missing_message(name))
        },
        OperationView::InsertVector { collection, vector } => if !known.contains(collection) {
            Some(missing_message(collection))
        } else if vector.data.len() == 0 {
            Some("Empty vector"@)
        } else {
            None
        },
        OperationView::BatchInsert { collection, vectors } => if !known.contains(collection) {
            Some(missing_message(collection))
        } else if has_empty(vectors) {
            Some("Empty vector in batch"@)
        } else {
            None
        },
        OperationView::DeleteVector { collection, id } => if known.contains(collection) {
            None
        } else {
            Some(missing_message(collection))
        },
    }
}

/// The known collections once `operation` has been accepted.
pub open spec fn known_after(operation: OperationView, known: Set<Seq<char>>) -> Set<Seq<char>> {
    match operation {
        OperationView::CreateCollection(config) => known.insert(config.name),
        OperationView::DeleteCollection(name) => known.remove(name),
        _ => known,
    }
}

/// The collections against which `operation` is judged: a creation
/// against those that the log itself has created and not deleted, so that
/// the directory which the creation once made does not stand against it;
/// anything else against all that are known, on disk or from the log.
pub open spec fn judged_against(
    operation: OperationView,
    known: Set<Seq<char>>,
    created: Set<Seq<char>>,
) -> Set<Seq<char>> {
    if operation is CreateCollection {
        created
    } else {
        known
    }
}

/// The operations that are replayed, from a point at which the collections
/// in `known` exist and the log has created those in `created`: each is
/// judged when its turn comes, and those that meet an objection are
/// skipped.
pub open spec fn judged(
    operations: Seq<OperationView>,
    known: Set<Seq<char>>,
    created: Set<Seq<char>>,
) -> Seq<OperationView>
    decreases operations.len(),
{
    if operations.len() == 0 {
        Seq::empty()
    } else if objection(operations.first(), judged_against(operations.first(), known, created))
        is None {
        seq![operations.first()] + judged(
            operations.drop_first(),
            known_after(operations.first(), known),
            known_after(operations.first(), created),
        )
    } else {
        judged(operations.drop_first(), known, created)
    }
}

/// The operations of a log that are replayed when the collections in
/// `existing` are found on disk.
pub open spec fn validated(operations: Seq<OperationView>, existing: Set<Seq<char>>) -> Seq<
    OperationView,
> {
    judged(operations, existing, Set::empty())
}

/// What is wrong with a collection's files, if anything: no data file at
/// all, or an empty `vectors.bin`.
pub open spec fn file_fault(files: CollectionFiles) -> Option<Seq<char>> {
    if files.vectors_len is None && !files.index_exists {
        Some("No data files found"@)
    } else if files.vectors_len == Some(0u64) {
        Some("Empty vectors file"@)
    } else {
        None
    }
}

/// The report line for a collection with a fault.
pub open spec fn issue_line(name: Seq<char>, fault: Seq<char>) -> Seq<char> {
    "Collection "@ + name + ": Storage error: "@ + fault
}

/// The report lines of the collections with a fault, in order.
pub open spec fn issues_of(observed: Seq<CollectionFiles>) -> Seq<Seq<char>>
    decreases observed.len(),
{
    if observed.len() == 0 {
        Seq::empty()
    } else {
        let earlier = issues_of(observed.drop_last());
        match file_fault(observed.last()) {
            Some(fault) => earlier.push(issue_line(observed.last().name@, fault)),
            None => earlier,
        }
    }
}

/// Texts of a list of strings.
pub open spec fn texts(lines: Seq<String>) -> Seq<Seq<char>> {
    lines.map_values(|line: String| line@)
}

fn internal_error(message: String) -> (error: VectorDbError)
    ensures
        error == (VectorDbError::Internal { message }),
{
    VectorDbError::Internal { message }
}

fn exists_text(name: &String) -> (message: String)
    ensures
        message@ == exists_message(name@),
{
    let mut message = String::from_str("Collection ");
    message.append(name.as_str());
    message.append(" already exists");
    message
}

fn missing_text(name: &String) -> (message: String)
    ensures
        message@ == missing_message(name@),
{
    let mut message = String::from_str("Collection ");
    message.append(name.as_str());
    message.append(" does not exist");
    message
}

/// Whether some vector has no components.
fn any_empty(vectors: &Vec<Vector>) -> (found: bool)
    ensures
        found == has_empty(crate::types::vectors_view(vectors@)),
{
    let ghost views = crate::types::vectors_view(vectors@);
    let mut i: usize = 0;
    while i < vectors.len()
        invariant
            i <= vectors@.len(),
            views == crate::types::vectors_view(vectors@),
            forall|k: int| 0 <= k < i ==> (#[trigger] views[k]).data.len() != 0,
        decreases vectors@.len() - i,
    {
        if vectors[i].data.len() == 0 {
            assert(views[i as int].data.len() == 0);
            return true;
        }
        assert(views[i as int].data == vectors@[i as int].data@);
        i += 1;
    }
    false
}

/// Decides what of a write-ahead log is replayed after a crash.
pub struct RecoveryManager {
    data_dir: String,
}

impl RecoveryManager {
    /// The directory whose state is recovered.
    pub closed spec fn spec_data_dir(&self) -> Seq<char> {
        self.data_dir@
    }

    pub fn new(data_dir: &str) -> (manager: Self)
        ensures
            manager.spec_data_dir() == data_dir@,
    {
        RecoveryManager { data_dir: text_of(data_dir) }
    }

    pub fn data_dir(&self) -> (dir: &String)
        ensures
            dir@ == self.spec_data_dir(),
    {
        &self.data_dir
    }

    /// The operations of `wal` that are replayed, given the collections
    /// that exist on disk.
    pub fn recover_from_wal(&self, wal: &WriteAheadLog, existing: NameSet) -> (replayed: Vec<
        WALOperation,
    >)
        ensures
            operations_view(replayed@) == validated(wal.operations(), existing@),
    {
        let operations = wal.read_all();
        if operations.len() == 0 {
            assert(operations_view(operations@) =~= validated(wal.operations(), existing@));
            return operations;
        }
        self.validate_operations(&operations, existing)
    }

    /// The operations that are replayed, given the collections that exist
    /// on disk. A creation is judged against the collections that the
    /// operations before it have created and not deleted; every other
    /// operation against these and those on disk.
    pub fn validate_operations(&self, operations: &Vec<WALOperation>, existing: NameSet) -> (valid:
        Vec<WALOperation>)
        ensures
            operations_view(valid@) == validated(operations_view(operations@), existing@),
    {
        let mut known = existing;
        let mut created = NameSet::new();
        let mut valid: Vec<WALOperation> = Vec::new();
        let ghost all = operations_view(operations@);
        let mut i: usize = 0;
        assert(operations_view(valid@) =~= Seq::<OperationView>::empty());
        assert(all.skip(0) =~= all);
        while i < operations.len()
            invariant
                i <= operations@.len(),
                all == operations_view(operations@),
                validated(all, existing@) == operations_view(valid@) + judged(
                    all.skip(i as int),
                    known@,
                    created@,
                ),
            decreases operations@.len() - i,
        {
            let ghost before = operations_view(valid@);
            let ghost rest = all.skip(i as int);
            proof {
                assert(rest.first() == operations@[i as int]@);
                assert(rest.drop_first() =~= all.skip(i + 1));
            }
            let accepted = match &operations[i] {
                WALOperation::CreateCollection(config) => {
                    match self.validate_operation(&operations[i], &mut created) {
                        Ok(()) => {
                            known.insert(config.name.as_str());
                            true
                        },
                        Err(_) => false,
                    }
                },
                WALOperation::DeleteCollection(name) => {
                    match self.validate_operation(&operations[i], &mut known) {
                        Ok(()) => {
                            created.remove(name.as_str());
                            true
                        },
                        Err(_) => false,
                    }
                },
                _ => {
                    match self.validate_operation(&operations[i], &mut known) {
                        Ok(()) => true,
                        Err(_) => false,
                    }
                },
            };
            if accepted {
                valid.push(copy_operation(&operations[i]));
                proof {
                    assert(operations_view(valid@) =~= before.push(rest.first()));
                    assert(before + (seq![rest.first()] + judged(
                        rest.drop_first(),
                        known@,
                        created@,
                    )) =~= before.push(rest.first()) + judged(rest.drop_first(), known@, created@));
                }
            }
            i += 1;
        }
        assert(all.skip(operations@.len() as int) =~= Seq::<OperationView>::empty());
        assert(operations_view(valid@) + Seq::<OperationView>::empty() =~= operations_view(
            valid@,
        ));
        valid
    }

    /// Judges one operation against the known collections, and records in
    /// them what an accepted operation creates or deletes.
    pub fn validate_operation(&self, op: &WALOperation, existing_collections: &mut NameSet) -> (result:
        Result<(), VectorDbError>)
        ensures
            match result {
                Ok(()) => objection(op@, old(existing_collections)@) is None
                    && final(existing_collections)@ == known_after(
                    op@,
                    old(existing_collections)@,
                ),
                Err(error) => final(existing_collections)@ == old(existing_collections)@
                    && match objection(op@, old(existing_collections)@) {
                    Some(text) => error.is_internal(text),
                    None => false,
                },
            },
    {
        match op {
            WALOperation::CreateCollection(config) => {
                if existing_collections.contains(config.name.as_str()) {
                    return Err(internal_error(exists_text(&config.name)));
                }
                existing_collections.insert(config.name.as_str());
            },
            WALOperation::DeleteCollection(name) => {
                if !existing_collections.contains(name.as_str()) {
                    return Err(internal_error(missing_text(name)));
                }
                existing_collections.remove(name.as_str());
            },
            WALOperation::InsertVector { collection, vector } => {
                if !existing_collections.contains(collection.as_str()) {
                    return Err(internal_error(missing_text(collection)));
                }
                if vector.data.len() == 0 {
                    return Err(internal_error("Empty vector".to_string()));
                }
            },
            WALOperation::BatchInsert { collection, vectors } => {
                if !existing_collections.contains(collection.as_str()) {
                    return Err(internal_error(missing_text(collection)));
                }
                if any_empty(vectors) {
                    return Err(internal_error("Empty vector in batch".to_string()));
                }
            },
            WALOperation::DeleteVector { collection, id } => {
                if !existing_collections.contains(collection.as_str()) {
                    return Err(internal_error(missing_text(collection)));
                }
            },
        }
        Ok(())
    }

    /// The collections among the entries of the data directory.
    pub fn discover_existing_collections(&self, entries: &Vec<DirectoryEntry>) -> (collections:
        NameSet)
        ensures
            collections@ == discovered(entries@),
    {
        let mut collections = NameSet::new();
        let mut i: usize = 0;
        while i < entries.len()
            invariant
                i <= entries@.len(),
                collections@ == discovered(entries@.take(i as int)),
            decreases entries@.len() - i,
        {
            let entry = &entries[i];
            let ghost before = collections@;
            if entry.is_dir && (entry.has_vectors_file || entry.has_index_file) {
                collections.insert(entry.name.as_str());
            }
            proof {
                let shorter = entries@.take(i as int);
                let longer = entries@.take(i + 1);
                assert forall|n: Seq<char>| collections@.contains(n) <==> discovered(
                    longer,
                ).contains(n) by {
                    if discovered(longer).contains(n) {
                        let w = choose|w: int|
                            0 <= w < longer.len() && (#[trigger] longer[w]).name@ == n
                                && is_collection(longer[w]);
                        if w < i {
                            assert(shorter[w] == longer[w]);
                            assert(discovered(shorter).contains(n));
                        }
                    }
                    if collections@.contains(n) {
                        if before.contains(n) {
                            let w = choose|w: int|
                                0 <= w < shorter.len() && (#[trigger] shorter[w]).name@ == n
                                    && is_collection(shorter[w]);
                            assert(longer[w] == shorter[w]);
                        } else {
                            assert(longer[i as int] == entries@[i as int]);
                        }
                    }
                }
                assert(collections@ =~= discovered(longer));
            }
            i += 1;
        }
        assert(entries@.take(entries@.len() as int) =~= entries@);
        collections
    }

    /// Checks the files of one collection.
    pub fn check_collection_consistency(&self, files: &CollectionFiles) -> (result: Result<
        (),
        VectorDbError,
    >)
        ensures
            match result {
                Ok(()) => file_fault(*files) is None,
                Err(error) => match file_fault(*files) {
                    Some(text) => error.is_storage_error(text),
                    None => false,
                },
            },
    {
        match files.vectors_len {
            None => {
                if !files.index_exists {
                    return Err(
                        VectorDbError::StorageError { message: "No data files found".to_string() },
                    );
                }
            },
            Some(length) => {
                if length == 0 {
                    return Err(
                        VectorDbError::StorageError { message: "Empty vectors file".to_string() },
                    );
                }
            },
        }
        Ok(())
    }

    /// One report line for each collection whose files have a fault.
    pub fn check_consistency(&self, observed: &Vec<CollectionFiles>) -> (issues: Vec<String>)
        ensures
            texts(issues@) == issues_of(observed@),
    {
        let mut issues: Vec<String> = Vec::new();
        let mut i: usize = 0;
        assert(texts(issues@) =~= issues_of(observed@.take(0)));
        while i < observed.len()
            invariant
                i <= observed@.len(),
                texts(issues@) == issues_of(observed@.take(i as int)),
            decreases observed@.len() - i,
        {
            let ghost before = texts(issues@);
            proof {
                assert(observed@.take(i + 1).drop_last() =~= observed@.take(i as int));
                assert(observed@.take(i + 1).last() == observed@[i as int]);
            }
            match self.check_collection_consistency(&observed[i]) {
                Ok(()) => {},
                Err(error) => {
                    match error {
                        VectorDbError::StorageError { message } => {
                            let mut line = String::from_str("Collection ");
                            line.append(observed[i].name.as_str());
                            line.append(": Storage error: ");
                            line.append(message.as_str());
                            issues.push(line);
                            assert(texts(issues@) =~= before.push(line@));
                        },
                        _ => {},
                    }
                },
            }
            i += 1;
        }
        assert(observed@.take(observed@.len() as int) =~= observed@);
        issues
    }
}

/// What was judged once passes a second judgement, from the same point,
/// unchanged.
pub proof fn lemma_judged_is_fixpoint(
    operations: Seq<OperationView>,
    known: Set<Seq<char>>,
    created: Set<Seq<char>>,
)
    ensures
        judged(judged(operations, known, created), known, created) == judged(
            operations,
            known,
            created,
        ),
    decreases operations.len(),
{
    if operations.len() == 0 {
    } else {
        let head = operations.first();
        let tail = operations.drop_first();
        if objection(head, judged_against(head, known, created)) is None {
            let next = known_after(head, known);
            let made = known_after(head, created);
            lemma_judged_is_fixpoint(tail, next, made);
            let kept = seq![head] + judged(tail, next, made);
            assert(kept.first() == head);
            assert(kept.drop_first() =~= judged(tail, next, made));
        } else {
            lemma_judged_is_fixpoint(tail, known, created);
        }
    }
}

/// Replay is idempotent: what was validated once passes a second
/// validation, with the same collections on disk, unchanged.
pub proof fn lemma_validated_is_fixpoint(operations: Seq<OperationView>, known: Set<Seq<char>>)
    ensures
        validated(validated(operations, known), known) == validated(operations, known),
{
    lemma_judged_is_fixpoint(operations, known, Set::empty());
}

} // verus!
