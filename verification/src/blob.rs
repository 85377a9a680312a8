//! Vectors as blobs: four bytes to a component, least significant first.

use vstd::prelude::*;
use vstd::bytes::{
    lemma_auto_spec_u32_to_from_le_bytes, spec_u32_from_le_bytes, spec_u32_to_le_bytes,
};
use vstd::slice::slice_subrange;
use byteorder::ByteOrder;

verus! {

/// Bytes of one component.
pub const WORD_BYTES: usize = 4;

/// Why two blobs cannot be compared.
#[derive(Debug, Clone, Copy, PartialEq, Eq, Structural)]
pub enum CosineErr {
    /// The blobs hold different numbers of components.
    Length,
    /// The size of a blob is no multiple of four.
    Align,
}

/// What stands against comparing two blobs, if anything: a size that is no
/// multiple of four, or else different numbers of components.
pub open spec fn blob_fault(a: Seq<u8>, b: Seq<u8>) -> Option<CosineErr> {
    if a.len() % 4 != 0 || b.len() % 4 != 0 {
        Some(CosineErr::Align)
    } else if a.len() / 4 != b.len() / 4 {
        Some(CosineErr::Length)
    } else {
        None
    }
}

/// The components that a blob holds; bytes behind the last whole
/// component are not read.
pub open spec fn blob_words(blob: Seq<u8>) -> Seq<u32> {
    Seq::new(
        (blob.len() / 4) as nat,
        |i: int| spec_u32_from_le_bytes(blob.subrange(4 * i, 4 * i + 4)),
    )
}

/// The blob of the components.
pub open spec fn words_blob(words: Seq<u32>) -> Seq<u8>
    decreases words.len(),
{
    if words.len() == 0 {
        Seq::empty()
    } else {
        words_blob(words.drop_last()) + spec_u32_to_le_bytes(words.last())
    }
}

/// `ByteOrder::read_u32` of `LittleEndian`: the unsigned 32-bit integer
/// that the first four bytes hold, least significant byte first.
#[verifier::external_body]
pub(crate) fn read_word(bytes: &[u8]) -> (word: u32)
    requires
        bytes@.len() >= 4,
    ensures
        word == spec_u32_from_le_bytes(bytes@.subrange(0, 4)),
{
    byteorder::LittleEndian::read_u32(bytes)
}

/// `ByteOrder::write_u32` of `LittleEndian` on a buffer of four bytes: the
/// bytes of the integer, least significant first.
#[verifier::external_body]
pub(crate) fn word_bytes(word: u32) -> (bytes: Vec<u8>)
    ensures
        bytes@ == spec_u32_to_le_bytes(word),
{
    let mut bytes = vec![0u8; 4];
    byteorder::LittleEndian::write_u32(&mut bytes, word);
    bytes
}

/// The number of components of two blobs that can be compared.
pub fn check_blobs(a: &[u8], b: &[u8]) -> (result: Result<usize, CosineErr>)
    ensures
        match result {
            Ok(count) => blob_fault(a@, b@) is None && count == a@.len() / 4,
            Err(error) => blob_fault(a@, b@) == Some(error),
        },
{
    if a.len() % WORD_BYTES != 0 || b.len() % WORD_BYTES != 0 {
        return Err(CosineErr::Align);
    }
    let na = a.len() / WORD_BYTES;
    let nb = b.len() / WORD_BYTES;
    if na != nb {
        return Err(CosineErr::Length);
    }
    Ok(na)
}

/// The components of a blob, as bit patterns.
pub fn blob_components(blob: &[u8]) -> (words: Vec<u32>)
    ensures
        words@ == blob_words(blob@),
{
    let count = blob.len() / WORD_BYTES;
    let mut words: Vec<u32> = Vec::new();
    let mut i: usize = 0;
    let mut start: usize = 0;
    while i < count
        invariant
            count == blob@.len() / 4,
            blob@.len() <= usize::MAX,
            i <= count,
            start == 4 * i,
            words@.len() == i,
            forall|k: int|
                0 <= k < i ==> #[trigger] words@[k] == spec_u32_from_le_bytes(
                    blob@.subrange(4 * k, 4 * k + 4),
                ),
        decreases count - i,
    {
        assert(4 * i + 4 <= blob@.len());
        let chunk = slice_subrange(blob, start, start + WORD_BYTES);
        assert(chunk@.subrange(0, 4) =~= blob@.subrange(4 * i, 4 * i + 4));
        words.push(read_word(chunk));
        start += WORD_BYTES;
        i += 1;
    }
    assert(words@ =~= blob_words(blob@));
    words
}

/// The blob of the components.
pub fn components_blob(words: &Vec<u32>) -> (blob: Vec<u8>)
    ensures
        blob@ == words_blob(words@),
{
    let mut blob: Vec<u8> = Vec::new();
    let mut i: usize = 0;
    assert(words@.take(0) =~= Seq::<u32>::empty());
    while i < words.len()
        invariant
            i <= words@.len(),
            blob@ == words_blob(words@.take(i as int)),
        decreases words@.len() - i,
    {
        let mut bytes = word_bytes(words[i]);
        let ghost before = blob@;
        blob.append(&mut bytes);
        proof {
            assert(words@.take(i + 1).drop_last() =~= words@.take(i as int));
            assert(words@.take(i + 1).last() == words@[i as int]);
        }
        i += 1;
    }
    assert(words@.take(words@.len() as int) =~= words@);
    blob
}

/// Round trip: the blob of components holds those components.
pub proof fn lemma_blob_roundtrip(words: Seq<u32>)
    ensures
        words_blob(words).len() == 4 * words.len(),
        blob_words(words_blob(words)) == words,
    decreases words.len(),
{
    lemma_auto_spec_u32_to_from_le_bytes();
    if words.len() == 0 {
        assert(blob_words(words_blob(words)) =~= words);
    } else {
        let shorter = words.drop_last();
        lemma_blob_roundtrip(shorter);
        let head = words_blob(shorter);
        let tail = spec_u32_to_le_bytes(words.last());
        let blob = head + tail;
        assert(blob.len() == 4 * words.len());
        assert forall|i: int| 0 <= i < words.len() implies blob_words(blob)[i] == words[i] by {
            if i < shorter.len() {
                assert(blob.subrange(4 * i, 4 * i + 4) =~= head.subrange(4 * i, 4 * i + 4));
                assert(blob_words(head)[i] == shorter[i]);
            } else {
                assert(blob.subrange(4 * i, 4 * i + 4) =~= tail);
            }
        }
        assert(blob_words(blob) =~= words);
    }
}

} // verus!
