//! The write-ahead log: the operations accepted so far, in order.
//!
//! The log is kept as entries. On disk each entry is one frame (see
//! `frame`); turning an entry into the bytes of a payload and back is the
//! caller's work.

use vstd::prelude::*;
use crate::error::VectorDbError;
use crate::frame::{
    all_fit, decode_frames, encode_frame, frame, frames, lemma_frames_push, parse_frames,
    payload_views, MAX_PAYLOAD,
};
use crate::ids::id_of_draw;
use crate::stamp::{random_id, unix_seconds};
use crate::types::{
    copy_config, copy_vector, copy_vectors, vectors_view, CollectionConfig, CollectionId,
    ConfigView, Vector, VectorId, VectorView,
};

verus! {

/// A mutation of the database, as the log records it.
#[derive(Debug, Clone)]
pub enum WALOperation {
    CreateCollection(CollectionConfig),
    DeleteCollection(CollectionId),
    InsertVector { collection: CollectionId, vector: Vector },
    BatchInsert { collection: CollectionId, vectors: Vec<Vector> },
    DeleteVector { collection: CollectionId, id: VectorId },
}

/// Mathematical value of a `WALOperation`.
pub enum OperationView {
    CreateCollection(ConfigView),
    DeleteCollection(Seq<char>),
    InsertVector { collection: Seq<char>, vector: VectorView },
    BatchInsert { collection: Seq<char>, vectors: Seq<VectorView> },
    DeleteVector { collection: Seq<char>, id: VectorId },
}

impl View for WALOperation {
    type V = OperationView;

    open spec fn view(&self) -> OperationView {
        match self {
            WALOperation::CreateCollection(config) => OperationView::CreateCollection(config@),
            WALOperation::DeleteCollection(name) => OperationView::DeleteCollection(name@),
            WALOperation::InsertVector { collection, vector } => OperationView::InsertVector {
                collection: collection@,
                vector: vector@,
            },
            WALOperation::BatchInsert { collection, vectors } => OperationView::BatchInsert {
                collection: collection@,
                vectors: vectors_view(vectors@),
            },
            WALOperation::DeleteVector { collection, id } => OperationView::DeleteVector {
                collection: collection@,
                id: *id,
            },
        }
    }
}

/// Views of a list of operations.
pub open spec fn operations_view(operations: Seq<WALOperation>) -> Seq<OperationView> {
    operations.map_values(|op: WALOperation| op@)
}

/// A copy of an operation.
pub fn copy_operation(operation: &WALOperation) -> (copy: WALOperation)
    ensures
        copy@ == operation@,
{
    match operation {
        WALOperation::CreateCollection(config) => WALOperation::CreateCollection(
            copy_config(config),
        ),
        WALOperation::DeleteCollection(name) => WALOperation::DeleteCollection(name.clone()),
        WALOperation::InsertVector { collection, vector } => WALOperation::InsertVector {
            collection: collection.clone(),
            vector: copy_vector(vector),
        },
        WALOperation::BatchInsert { collection, vectors } => WALOperation::BatchInsert {
            collection: collection.clone(),
            vectors: copy_vectors(vectors),
        },
        WALOperation::DeleteVector { collection, id } => WALOperation::DeleteVector {
            collection: collection.clone(),
            id: *id,
        },
    }
}

/// One entry of the log: an operation with the entry's own identifier, the
/// time of logging in seconds since the Unix epoch, and a checksum field
/// that is reserved and written as 0.
#[derive(Debug, Clone)]
pub struct WALEntry {
    pub id: u128,
    pub timestamp: u64,
    pub checksum: u32,
    pub operation: WALOperation,
}

impl WALEntry {
    /// An entry for `operation`.
    pub fn new(id: u128, timestamp: u64, operation: WALOperation) -> (entry: Self)
        ensures
            entry.id == id,
            entry.timestamp == timestamp,
            entry.checksum == 0,
            entry.operation == operation,
    {
        WALEntry { id, timestamp, checksum: 0, operation }
    }
}

/// Mathematical value of a `WALEntry`.
pub struct EntryView {
    pub id: u128,
    pub timestamp: u64,
    pub checksum: u32,
    pub operation: OperationView,
}

impl View for WALEntry {
    type V = EntryView;

    open spec fn view(&self) -> EntryView {
        EntryView {
            id: self.id,
            timestamp: self.timestamp,
            checksum: self.checksum,
            operation: self.operation@,
        }
    }
}

/// Views of a list of entries.
pub open spec fn entry_views(entries: Seq<WALEntry>) -> Seq<EntryView> {
    entries.map_values(|entry: WALEntry| entry@)
}

/// `encode` may turn `entry` into `bytes`.
pub open spec fn encodes<E: Fn(&WALEntry) -> Vec<u8>>(encode: &E, entry: WALEntry,
    bytes: Seq<u8>) -> bool {
    exists|b: Vec<u8>| b@ == bytes && #[trigger] call_ensures(*encode, (&entry,), b)
}

/// `decode` may read `bytes` as `back`.
pub open spec fn decodes<Dc: Fn(&Vec<u8>) -> Option<WALEntry>>(
    decode: &Dc,
    bytes: Seq<u8>,
    back: Option<WALEntry>,
) -> bool {
    exists|b: Vec<u8>| b@ == bytes && #[trigger] call_ensures(*decode, (&b,), back)
}

/// `encode` and `decode` may be called on anything.
pub open spec fn callable<E: Fn(&WALEntry) -> Vec<u8>, Dc: Fn(&Vec<u8>) -> Option<WALEntry>>(
    encode: &E,
    decode: &Dc,
) -> bool {
    &&& forall|entry: &WALEntry| #[trigger] call_requires(*encode, (entry,))
    &&& forall|bytes: &Vec<u8>| #[trigger] call_requires(*decode, (bytes,))
}

/// `decode` reads what `encode` wrote as the entry that was written.
pub open spec fn is_codec<E: Fn(&WALEntry) -> Vec<u8>, Dc: Fn(&Vec<u8>) -> Option<WALEntry>>(
    encode: &E,
    decode: &Dc,
) -> bool {
    forall|entry: WALEntry, bytes: Seq<u8>, back: Option<WALEntry>|
        #[trigger] encodes(encode, entry, bytes) && #[trigger] decodes(decode, bytes, back) ==> (
        match back {
            Some(read) => read@ == entry@,
            None => false,
        })
}

/// `payloads` are encodings of `entries`, one for one.
pub open spec fn encoded<E: Fn(&WALEntry) -> Vec<u8>>(
    encode: &E,
    entries: Seq<WALEntry>,
    payloads: Seq<Seq<u8>>,
) -> bool {
    &&& payloads.len() == entries.len()
    &&& all_fit(payloads)
    &&& forall|i: int| 0 <= i < entries.len() ==> encodes(encode, entries[i], #[trigger] payloads[i])
}

/// `entries` are readings of `payloads`, one for one.
pub open spec fn decoded<Dc: Fn(&Vec<u8>) -> Option<WALEntry>>(
    decode: &Dc,
    payloads: Seq<Seq<u8>>,
    entries: Seq<WALEntry>,
) -> bool {
    &&& payloads.len() == entries.len()
    &&& forall|i: int|
        0 <= i < entries.len() ==> decodes(decode, payloads[i], Some(#[trigger] entries[i]))
}

/// The operations of a list of entries.
pub open spec fn entry_operations(entries: Seq<WALEntry>) -> Seq<OperationView> {
    entries.map_values(|entry: WALEntry| entry.operation@)
}

/// The log.
pub struct WriteAheadLog {
    entries: Vec<WALEntry>,
}

impl WriteAheadLog {
    /// The entries, oldest first.
    pub closed spec fn entries(&self) -> Seq<WALEntry> {
        self.entries@
    }

    /// The logged operations, oldest first.
    pub open spec fn operations(&self) -> Seq<OperationView> {
        entry_operations(self.entries())
    }

    /// An empty log.
    pub fn new() -> (log: Self)
        ensures
            log.entries() == Seq::<WALEntry>::empty(),
    {
        WriteAheadLog { entries: Vec::new() }
    }

    /// The log that holds the given entries.
    pub fn from_entries(entries: Vec<WALEntry>) -> (log: Self)
        ensures
            log.entries() == entries@,
    {
        WriteAheadLog { entries }
    }

    /// Appends the entry with the given identifier and time, checksum 0
    /// and the operation.
    pub fn append_entry(&mut self, id: u128, timestamp: u64, operation: &WALOperation)
        ensures
            final(self).entries().len() == old(self).entries().len() + 1,
            final(self).entries().drop_last() == old(self).entries(),
            final(self).entries().last().id == id,
            final(self).entries().last().timestamp == timestamp,
            final(self).entries().last().checksum == 0,
            final(self).entries().last().operation@ == operation@,
            final(self).operations() == old(self).operations().push(operation@),
    {
        let entry = WALEntry::new(id, timestamp, copy_operation(operation));
        self.entries.push(entry);
        assert(self.entries().drop_last() =~= old(self).entries());
        assert(self.operations() =~= old(self).operations().push(operation@));
    }

    /// Appends an entry for `operation`, with a random identifier, the time
    /// of the system clock and checksum 0. Where the system gives no random
    /// bytes for the identifier the failure is reported and the log stays
    /// as it is: the caller must not carry the operation out.
    pub fn append(&mut self, operation: &WALOperation) -> (result: Result<(), VectorDbError>)
        ensures
            match result {
                Ok(()) => final(self).entries().len() == old(self).entries().len() + 1
                    && final(self).entries().drop_last() == old(self).entries()
                    && final(self).entries().last().checksum == 0
                    && final(self).entries().last().operation@ == operation@
                    && final(self).operations() == old(self).operations().push(operation@),
                Err(error) => error.is_unlogged() && final(self).entries() == old(self).entries()
                    && final(self).operations() == old(self).operations(),
            },
    {
        match id_of_draw(random_id()) {
            Ok(id) => {
                self.append_entry(id, unix_seconds(), operation);
                Ok(())
            },
            Err(error) => Err(error),
        }
    }

    /// The logged operations, oldest first.
    pub fn read_all(&self) -> (operations: Vec<WALOperation>)
        ensures
            operations_view(operations@) == self.operations(),
            operations@.len() == self.entries().len(),
            forall|i: int|
                0 <= i < operations@.len() ==> (#[trigger] operations@[i])@
                    == self.entries()[i].operation@,
    {
        let mut operations: Vec<WALOperation> = Vec::new();
        let mut i: usize = 0;
        while i < self.entries.len()
            invariant
                i <= self.entries@.len(),
                operations@.len() == i,
                forall|k: int|
                    0 <= k < i ==> (#[trigger] operations@[k])@ == self.entries@[k].operation@,
            decreases self.entries@.len() - i,
        {
            operations.push(copy_operation(&self.entries[i].operation));
            i += 1;
        }
        assert(operations_view(operations@) =~= self.operations());
        operations
    }

    /// The log as the bytes of its file: the frame of each entry's
    /// encoding, oldest first. An encoding too long for a frame is refused.
    pub fn to_bytes<E: Fn(&WALEntry) -> Vec<u8>>(&self, encode: &E) -> (result: Result<
        Vec<u8>,
        VectorDbError,
    >)
        requires
            forall|entry: &WALEntry| #[trigger] call_requires(*encode, (entry,)),
        ensures
            match result {
                Ok(bytes) => exists|payloads: Seq<Seq<u8>>|
                    #[trigger] encoded(encode, self.entries(), payloads) && bytes@ == frames(
                        payloads,
                    ),
                Err(error) => error.is_serialization("entry too large for a frame"@)
                    && exists|i: int, bytes: Seq<u8>|
                    0 <= i < self.entries().len() && #[trigger] encodes(
                        encode,
                        self.entries()[i],
                        bytes,
                    ) && bytes.len() > MAX_PAYLOAD,
            },
    {
        let mut bytes: Vec<u8> = Vec::new();
        let ghost mut payloads: Seq<Seq<u8>> = Seq::empty();
        let mut i: usize = 0;
        while i < self.entries.len()
            invariant
                i <= self.entries@.len(),
                forall|entry: &WALEntry| #[trigger] call_requires(*encode, (entry,)),
                encoded(encode, self.entries@.take(i as int), payloads),
                bytes@ == frames(payloads),
            decreases self.entries@.len() - i,
        {
            let payload = encode(&self.entries[i]);
            if payload.len() > MAX_PAYLOAD {
                assert(encodes(encode, self.entries()[i as int], payload@));
                return Err(
                    VectorDbError::Serialization("entry too large for a frame".to_string()),
                );
            }
            let mut framed = encode_frame(payload.as_slice());
            bytes.append(&mut framed);
            proof {
                lemma_frames_push(payloads, payload@);
                let longer = payloads.push(payload@);
                let taken = self.entries@.take(i + 1);
                assert(encodes(encode, self.entries@[i as int], payload@));
                assert forall|k: int| 0 <= k < taken.len() implies encodes(
                    encode,
                    taken[k],
                    #[trigger] longer[k],
                ) by {
                    if k < i {
                        assert(taken[k] == self.entries@.take(i as int)[k]);
                        assert(longer[k] == payloads[k]);
                    }
                }
                assert forall|k: int| 0 <= k < longer.len() implies (#[trigger] longer[k]).len()
                    <= MAX_PAYLOAD by {
                    if k < i {
                        assert(longer[k] == payloads[k]);
                    }
                }
                payloads = longer;
            }
            i += 1;
        }
        assert(self.entries@.take(self.entries@.len() as int) =~= self.entries@);
        assert(encoded(encode, self.entries(), payloads));
        Ok(bytes)
    }

    /// The log that the bytes of a file hold: the readings of the payloads
    /// of its whole frames, in order. A torn tail is dropped; a payload that
    /// cannot be read is reported.
    pub fn from_bytes<Dc: Fn(&Vec<u8>) -> Option<WALEntry>>(bytes: &[u8], decode: &Dc) -> (result:
        Result<Self, VectorDbError>)
        requires
            forall|payload: &Vec<u8>| #[trigger] call_requires(*decode, (payload,)),
        ensures
            match result {
                Ok(log) => decoded(decode, parse_frames(bytes@), log.entries()),
                Err(error) => error.is_serialization("malformed entry"@) && exists|i: int|
                    0 <= i < parse_frames(bytes@).len() && #[trigger] decodes(
                        decode,
                        parse_frames(bytes@)[i],
                        None,
                    ),
            },
    {
        let payloads = decode_frames(bytes);
        let ghost views = payload_views(payloads@);
        let mut entries: Vec<WALEntry> = Vec::new();
        let mut i: usize = 0;
        while i < payloads.len()
            invariant
                i <= payloads@.len(),
                views == payload_views(payloads@),
                views == parse_frames(bytes@),
                forall|payload: &Vec<u8>| #[trigger] call_requires(*decode, (payload,)),
                entries@.len() == i,
                forall|k: int| 0 <= k < i ==> decodes(decode, views[k], Some(#[trigger] entries@[k])),
            decreases payloads@.len() - i,
        {
            assert(views[i as int] == payloads@[i as int]@);
            match decode(&payloads[i]) {
                Some(entry) => {
                    assert(decodes(decode, views[i as int], Some(entry)));
                    entries.push(entry);
                },
                None => {
                    assert(decodes(decode, views[i as int], None));
                    return Err(VectorDbError::Serialization("malformed entry".to_string()));
                },
            }
            i += 1;
        }
        Ok(WriteAheadLog { entries })
    }

    /// Number of bytes of the log's file.
    pub fn size<E: Fn(&WALEntry) -> Vec<u8>>(&self, encode: &E) -> (result: Result<
        u64,
        VectorDbError,
    >)
        requires
            forall|entry: &WALEntry| #[trigger] call_requires(*encode, (entry,)),
        ensures
            match result {
                Ok(size) => exists|payloads: Seq<Seq<u8>>|
                    #[trigger] encoded(encode, self.entries(), payloads) && size == frames(
                        payloads,
                    ).len(),
                Err(error) => error.is_serialization("entry too large for a frame"@)
                    && exists|i: int, bytes: Seq<u8>|
                    0 <= i < self.entries().len() && #[trigger] encodes(
                        encode,
                        self.entries()[i],
                        bytes,
                    ) && bytes.len() > MAX_PAYLOAD,
            },
    {
        match self.to_bytes(encode) {
            Ok(bytes) => Ok(bytes.len() as u64),
            Err(error) => Err(error),
        }
    }

    /// Every appended entry is in the log at once: there is nothing to
    /// flush.
    pub fn sync(&self) {
    }

    /// Empties the log.
    pub fn truncate(&mut self)
        ensures
            final(self).entries() == Seq::<WALEntry>::empty(),
    {
        self.entries.clear();
    }

    /// Number of entries.
    pub fn len(&self) -> (count: usize)
        ensures
            count == self.entries().len(),
    {
        self.entries.len()
    }
}

/// Round trip of the log: an empty log to which operations were appended
/// one by one holds exactly those operations, in the order of appending.
pub proof fn lemma_log_holds_what_was_appended(
    states: Seq<WriteAheadLog>,
    operations: Seq<OperationView>,
)
    requires
        states.len() == operations.len() + 1,
        states[0].operations() == Seq::<OperationView>::empty(),
        forall|i: int|
            0 <= i < operations.len() ==> (#[trigger] states[i + 1]).operations()
                == states[i].operations().push(operations[i]),
    ensures
        states.last().operations() == operations,
    decreases operations.len(),
{
    if operations.len() == 0 {
        assert(states.last().operations() =~= operations);
    } else {
        let n = operations.len() - 1;
        assert forall|i: int| 0 <= i < n implies (#[trigger] states.drop_last()[i
            + 1]).operations() == states.drop_last()[i].operations().push(
            operations.drop_last()[i],
        ) by {
            assert(states.drop_last()[i + 1] == states[i + 1]);
        }
        lemma_log_holds_what_was_appended(states.drop_last(), operations.drop_last());
        assert(states.drop_last().last() == states[n]);
        assert(states.last() == states[n + 1]);
        assert(operations.drop_last().push(operations[n]) =~= operations);
    }
}

/// Round trip through the file: what a log was written as, even with a
/// torn tail behind it, is read back as a log of the same entries, provided
/// that the decoder reads what the encoder wrote.
pub proof fn lemma_log_file_roundtrip<E: Fn(&WALEntry) -> Vec<u8>, Dc: Fn(&Vec<u8>) -> Option<WALEntry>>(
    encode: &E,
    decode: &Dc,
    written: Seq<WALEntry>,
    payloads: Seq<Seq<u8>>,
    torn: Seq<u8>,
    last: Seq<u8>,
    cut: int,
    read: Seq<WALEntry>,
)
    requires
        is_codec(encode, decode),
        encoded(encode, written, payloads),
        last.len() <= MAX_PAYLOAD,
        0 <= cut < 4 + last.len(),
        torn == frame(last).take(cut),
        decoded(decode, parse_frames(frames(payloads) + torn), read),
    ensures
        entry_views(read) == entry_views(written),
        entry_operations(read) == entry_operations(written),
{
    crate::frame::lemma_torn_tail_is_dropped(payloads, last, cut);
    assert(parse_frames(frames(payloads) + torn) == payloads);
    assert forall|i: int| 0 <= i < written.len() implies (#[trigger] read[i])@ == written[i]@ by {
        assert(encodes(encode, written[i], payloads[i]));
        assert(decodes(decode, payloads[i], Some(read[i])));
    }
    assert(entry_views(read) =~= entry_views(written));
    assert forall|i: int| 0 <= i < written.len() implies (#[trigger] read[i]).operation@
        == written[i].operation@ by {
        assert(read[i]@ == written[i]@);
    }
    assert(entry_operations(read) =~= entry_operations(written));
}

} // verus!
