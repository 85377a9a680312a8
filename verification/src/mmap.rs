//! Append-only storage region with doubling growth.
//!
//! `MMapStorage` is the region as the engine sees it: the mapped bytes and
//! the write position. Mapping a file and flushing it are the caller's
//! work; the sizes to map and the windows to read are decided here.

use vstd::prelude::*;
use vstd::slice::{slice_subrange, slice_to_vec};
use crate::error::VectorDbError;
use crate::frame::{
    all_fit, announced, frame, frames, lemma_frames_push, lemma_frames_roundtrip, next_frame,
    parse_frames, MAX_PAYLOAD, PREFIX_BYTES,
};

verus! {

/// Size to which an empty file is extended before it is mapped.
pub const INITIAL_SIZE: u64 = 1024 * 1024;

/// Factor by which the region outgrows a write that does not fit.
pub const GROWTH_FACTOR: u64 = 2;

/// Size at which a file of `current` bytes is mapped.
pub open spec fn spec_initial_size(current: u64) -> u64 {
    if current == 0 {
        INITIAL_SIZE
    } else {
        current
    }
}

pub fn initial_size(current: u64) -> (size: u64)
    ensures
        size == spec_initial_size(current),
{
    if current == 0 {
        INITIAL_SIZE
    } else {
        current
    }
}

/// Whether `n` bytes written at `position` overflow a region of `size`.
pub open spec fn spec_needs_growth(position: u64, size: u64, n: u64) -> bool {
    position + n > size
}

pub fn needs_growth(position: u64, size: u64, n: u64) -> (grow: bool)
    ensures
        grow == spec_needs_growth(position, size, n),
{
    n > u64::MAX - position || position + n > size
}

/// Size to which the region grows for `n` bytes written at `position`.
pub open spec fn spec_grown_size(position: u64, n: u64) -> int {
    GROWTH_FACTOR * (position + n)
}

pub fn grown_size(position: u64, n: u64) -> (size: u64)
    requires
        spec_grown_size(position, n) <= u64::MAX,
    ensures
        size == spec_grown_size(position, n),
{
    (position + n) * GROWTH_FACTOR
}

/// Whether the window of `length` bytes at `offset` lies in a region of
/// `mapped` bytes.
pub open spec fn spec_window_in_bounds(offset: u64, length: usize, mapped: usize) -> bool {
    offset + length <= mapped
}

pub fn window_in_bounds(offset: u64, length: usize, mapped: usize) -> (inside: bool)
    ensures
        inside == spec_window_in_bounds(offset, length, mapped),
{
    offset <= mapped as u64 && length as u64 <= mapped as u64 - offset
}

/// The bytes of a region of `size` bytes that extends `mapped` with zeros.
pub open spec fn extended(mapped: Seq<u8>, size: int) -> Seq<u8> {
    Seq::new(
        size as nat,
        |i: int|
            if i < mapped.len() {
                mapped[i]
            } else {
                0u8
            },
    )
}

/// An append-only region: the mapped bytes and the write position.
pub struct MMapStorage {
    region: Vec<u8>,
    position: u64,
}

impl MMapStorage {
    /// The mapped bytes.
    pub closed spec fn mapped(&self) -> Seq<u8> {
        self.region@
    }

    /// The write position.
    pub closed spec fn cursor(&self) -> int {
        self.position as int
    }

    /// The write position lies within the region.
    pub open spec fn wf(&self) -> bool {
        0 <= self.cursor() <= self.mapped().len()
    }

    /// The bytes written so far.
    pub open spec fn written(&self) -> Seq<u8> {
        self.mapped().take(self.cursor())
    }

    /// The region of a file with the given contents: an empty file is
    /// extended to `INITIAL_SIZE` zero bytes, any other is mapped as it is.
    /// Writing starts at 0.
    pub fn new(contents: Vec<u8>) -> (storage: Self)
        ensures
            storage.wf(),
            storage.cursor() == 0,
            storage.mapped() == if contents@.len() == 0 {
                extended(contents@, INITIAL_SIZE as int)
            } else {
                contents@
            },
    {
        let mut storage = MMapStorage { region: contents, position: 0 };
        if storage.region.len() == 0 {
            storage.grow(INITIAL_SIZE as usize);
        }
        storage
    }

    /// Extends the region with zeros to `new_size` bytes.
    fn grow(&mut self, new_size: usize)
        requires
            old(self).region@.len() <= new_size,
        ensures
            final(self).position == old(self).position,
            final(self).region@ == extended(old(self).region@, new_size as int),
    {
        while self.region.len() < new_size
            invariant
                self.position == old(self).position,
                old(self).region@.len() <= self.region@.len() <= new_size,
                self.region@ == extended(old(self).region@, self.region@.len() as int),
            decreases new_size - self.region@.len(),
        {
            let ghost before = self.region@;
            self.region.push(0);
            assert(self.region@ =~= extended(old(self).region@, self.region@.len() as int));
        }
    }

    /// Writes `data` at the write position and returns the offset at which
    /// it was placed. A region too small for the write first grows to twice
    /// the end of the write.
    pub fn append(&mut self, data: &[u8]) -> (offset: u64)
        requires
            old(self).wf(),
            GROWTH_FACTOR * (old(self).cursor() + data@.len()) <= usize::MAX,
        ensures
            final(self).wf(),
            offset == old(self).cursor(),
            final(self).cursor() == old(self).cursor() + data@.len(),
            final(self).written() == old(self).written() + data@,
            final(self).mapped().len()
                == if old(self).cursor() + data@.len() > old(self).mapped().len() {
                GROWTH_FACTOR * (old(self).cursor() + data@.len())
            } else {
                old(self).mapped().len() as int
            },
            forall|i: int|
                final(self).cursor() <= i < final(self).mapped().len() ==> final(self).mapped()[i]
                    == if i < old(self).mapped().len() {
                    old(self).mapped()[i]
                } else {
                    0u8
                },
    {
        let start = self.position as usize;
        let end = start + data.len();
        if needs_growth(self.position, self.region.len() as u64, data.len() as u64) {
            self.grow(end * (GROWTH_FACTOR as usize));
        }
        let ghost sized = self.region@;
        let mut i: usize = 0;
        while i < data.len()
            invariant
                i <= data@.len(),
                start + data@.len() == end,
                end <= self.region@.len(),
                self.region@.len() == sized.len(),
                self.position == old(self).position,
                forall|k: int|
                    0 <= k < self.region@.len() ==> self.region@[k] == if start <= k < start + i {
                        data@[k - start]
                    } else {
                        sized[k]
                    },
            decreases data@.len() - i,
        {
            self.region[start + i] = data[i];
            i += 1;
        }
        self.position = end as u64;
        assert(self.written() =~= old(self).written() + data@);
        start as u64
    }

    /// The `length` bytes at `offset`, if the window lies in the region.
    pub fn read(&self, offset: u64, length: usize) -> (result: Result<Vec<u8>, VectorDbError>)
        ensures
            offset + length <= self.mapped().len() ==> (result matches Ok(bytes) && bytes@
                == self.mapped().subrange(offset as int, offset + length)),
            offset + length > self.mapped().len() ==> (result matches Err(error)
                && error.is_storage_error("Read beyond file boundary"@)),
    {
        if !window_in_bounds(offset, length, self.region.len()) {
            return Err(
                VectorDbError::StorageError {
                    message: "Read beyond file boundary".to_string(),
                },
            );
        }
        let start = offset as usize;
        Ok(slice_to_vec(slice_subrange(self.region.as_slice(), start, start + length)))
    }

    /// Number of mapped bytes.
    pub fn size(&self) -> (size: u64)
        ensures
            size == self.mapped().len(),
    {
        self.region.len() as u64
    }

    /// The write position.
    pub fn position(&self) -> (position: u64)
        ensures
            position == self.cursor(),
    {
        self.position
    }

    /// A cursor over the records written so far, at the first of them.
    pub fn iter(&self) -> (cursor: StorageIterator<'_>)
        ensures
            cursor.storage() == *self,
            cursor.offset() == 0,
    {
        StorageIterator { storage: self, position: 0 }
    }
}

/// A cursor over the length-prefixed records of a region.
pub struct StorageIterator<'a> {
    storage: &'a MMapStorage,
    position: u64,
}

impl<'a> StorageIterator<'a> {
    /// The region that the cursor reads.
    pub closed spec fn storage(&self) -> MMapStorage {
        *self.storage
    }

    /// Offset of the next record.
    pub closed spec fn offset(&self) -> int {
        self.position as int
    }

    /// The cursor lies within what was written.
    pub open spec fn wf(&self) -> bool {
        self.storage().wf() && 0 <= self.offset() <= self.storage().cursor()
    }

    /// The written bytes from the cursor on.
    pub open spec fn rest(&self) -> Seq<u8> {
        self.storage().written().skip(self.offset())
    }

    /// The next record, if a whole one lies between the cursor and the
    /// write position; the cursor then moves past it.
    pub fn next(&mut self) -> (record: Option<Vec<u8>>)
        requires
            old(self).wf(),
        ensures
            final(self).wf(),
            final(self).storage() == old(self).storage(),
            match record {
                Some(payload) => parse_frames(old(self).rest()).len() > 0 && payload@
                    == parse_frames(old(self).rest())[0] && parse_frames(final(self).rest())
                    == parse_frames(old(self).rest()).drop_first() && final(self).offset()
                        == old(self).offset() + PREFIX_BYTES + payload@.len(),
                None => parse_frames(old(self).rest()).len() == 0 && final(self).offset()
                    == old(self).offset(),
            },
    {
        let bytes = self.storage.region.as_slice();
        let mapped = bytes.len();
        let cursor = self.position as usize;
        let end = self.storage.position as usize;
        proof {
            assert(bytes@.subrange(cursor as int, end as int) =~= self.rest());
        }
        match next_frame(bytes, cursor, end) {
            None => None,
            Some((start, length)) => {
                let payload = slice_to_vec(slice_subrange(bytes, start, start + length));
                proof {
                    let rest = self.rest();
                    let stop = PREFIX_BYTES + announced(rest);
                    assert(payload@ =~= rest.subrange(PREFIX_BYTES as int, stop));
                    assert(rest.subrange(stop, rest.len() as int)
                        =~= self.storage().written().skip(start + length));
                    assert((seq![payload@] + parse_frames(
                        rest.subrange(stop, rest.len() as int),
                    )).drop_first() =~= parse_frames(rest.subrange(stop, rest.len() as int)));
                }
                self.position = (start + length) as u64;
                Some(payload)
            },
        }
    }
}

/// Append, then read: the bytes that an append placed are the bytes of
/// their window, which is what a read of the window returns.
pub proof fn lemma_appended_is_readable(before: &MMapStorage, after: &MMapStorage, data: Seq<u8>)
    requires
        before.wf(),
        after.wf(),
        after.cursor() == before.cursor() + data.len(),
        after.written() == before.written() + data,
    ensures
        after.mapped().subrange(before.cursor(), before.cursor() + data.len()) == data,
{
    let window = after.mapped().subrange(before.cursor(), before.cursor() + data.len());
    assert forall|i: int| 0 <= i < data.len() implies window[i] == data[i] by {
        assert(after.written()[before.cursor() + i] == data[i]);
    }
    assert(window =~= data);
}

/// Appending the frame of a record to a storage that holds the frames of
/// records leaves it holding the frames of all of them.
pub proof fn lemma_record_appended(
    before: &MMapStorage,
    after: &MMapStorage,
    payloads: Seq<Seq<u8>>,
    payload: Seq<u8>,
)
    requires
        payload.len() <= MAX_PAYLOAD,
        before.written() == frames(payloads),
        after.written() == before.written() + frame(payload),
    ensures
        after.written() == frames(payloads.push(payload)),
{
    lemma_frames_push(payloads, payload);
}

/// Records come back: over a storage that holds the frames of records, a
/// cursor at the start has exactly those records before it, in the order
/// in which they were appended.
pub proof fn lemma_cursor_yields_records(cursor: &StorageIterator, payloads: Seq<Seq<u8>>)
    requires
        cursor.wf(),
        cursor.offset() == 0,
        all_fit(payloads),
        cursor.storage().written() == frames(payloads),
    ensures
        parse_frames(cursor.rest()) == payloads,
{
    lemma_frames_roundtrip(payloads);
    assert(cursor.rest() =~= cursor.storage().written());
}

} // verus!
