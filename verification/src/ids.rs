//! Vector identifiers as text.

use vstd::prelude::*;
use crate::error::VectorDbError;
use crate::stamp::random_id;
use crate::types::VectorId;

verus! {

/// The identifier that a text writes as a UUID, if it writes one.
pub uninterp spec fn uuid_value(text: Seq<char>) -> Option<u128>;

/// An identifier written as a UUID.
pub uninterp spec fn uuid_text(id: u128) -> Seq<char>;

/// `Uuid::parse_str`, read with `Uuid::as_u128`: the 128-bit value of the
/// UUID that the text writes, in any of the forms that the crate reads
/// (simple, hyphenated, URN, braced), or `None` where it writes none.
#[verifier::external_body]
pub(crate) fn parse_uuid(text: &str) -> (id: Option<u128>)
    ensures
        id == uuid_value(text@),
{
    match uuid::Uuid::parse_str(text) {
        Ok(uuid) => Some(uuid.as_u128()),
        Err(_) => None,
    }
}

/// `Uuid::from_u128`, shown by `Display`: the hyphenated form in lower
/// case.
#[verifier::external_body]
pub(crate) fn show_uuid(id: u128) -> (text: String)
    ensures
        text@ == uuid_text(id),
{
    uuid::Uuid::from_u128(id).to_string()
}

/// What reading a text as an identifier gives: the identifier, or the
/// error for a text that writes none.
pub open spec fn parsed(value: Option<u128>, result: Result<VectorId, VectorDbError>) -> bool {
    match value {
        Some(id) => result matches Ok(read) && read == id,
        None => result matches Err(error) && error.is_serialization("Invalid vector ID format"@),
    }
}

/// The identifier that a value of `Uuid::parse_str` stands for.
pub fn id_of_parse(value: Option<u128>) -> (result: Result<VectorId, VectorDbError>)
    ensures
        parsed(value, result),
{
    match value {
        Some(id) => Ok(id),
        None => Err(VectorDbError::Serialization("Invalid vector ID format".to_string())),
    }
}

/// The identifier that the text writes. A text that writes no UUID is
/// refused.
pub fn parse_vector_id(text: &str) -> (result: Result<VectorId, VectorDbError>)
    ensures
        parsed(uuid_value(text@), result),
{
    id_of_parse(parse_uuid(text))
}

/// The identifier as text.
pub fn vector_id_text(id: VectorId) -> (text: String)
    ensures
        text@ == uuid_text(id),
{
    show_uuid(id)
}

/// What drawing an identifier gives: the identifier drawn, or the error
/// for a system that gives no random bytes.
pub open spec fn drawn(value: Option<u128>, result: Result<VectorId, VectorDbError>) -> bool {
    match value {
        Some(id) => result matches Ok(made) && made == id,
        None => result matches Err(error) && error.is_internal("no random bytes for an identifier"@),
    }
}

/// The identifier that a draw stands for.
pub fn id_of_draw(value: Option<u128>) -> (result: Result<VectorId, VectorDbError>)
    ensures
        drawn(value, result),
{
    match value {
        Some(id) => Ok(id),
        None => Err(
            VectorDbError::Internal { message: "no random bytes for an identifier".to_string() },
        ),
    }
}

/// The identifier of a vector that comes with the given text for one, or
/// with none: the one that the text writes, or a random one. A text that
/// writes no UUID is refused, and a random identifier fails only where the
/// system gives no random bytes.
pub fn assign_vector_id(given: Option<&str>) -> (result: Result<VectorId, VectorDbError>)
    ensures
        match given {
            Some(text) => parsed(uuid_value(text@), result),
            None => exists|value: Option<u128>| #[trigger] drawn(value, result),
        },
{
    match given {
        Some(text) => parse_vector_id(text),
        None => {
            let value = random_id();
            let result = id_of_draw(value);
            assert(drawn(value, result));
            result
        },
    }
}

} // verus!
