//! Requests for a partial refresh, as they come in from outside: a receipt
//! that names the validator concerned and, where there is one, the hash of
//! the block up to which the refresh is to see. A malformed request is
//! turned away before it reaches the scheduler.

use vstd::prelude::*;

verus! {

/// Why a request was turned away.
#[derive(Clone, Copy, Debug, PartialEq, Eq, Structural)]
pub enum TriggerError {
    /// The request names no receipt.
    MissingReceiptId,
    /// The receipt's identifier is no hash.
    MalformedReceiptId,
    /// The block hash is no hash.
    MalformedBlockHash,
}

/// A request that was found well formed: the bytes of the receipt's
/// identifier and, where the request named a block, those of its hash.
#[derive(Debug)]
pub struct TriggerRequest {
    pub receipt_id: Vec<u8>,
    pub block_hash: Option<Vec<u8>>,
}

/// The bytes that `near_primitives::hash::CryptoHash` reads from `text`,
/// if it reads a hash.
pub uninterp spec fn hash_bytes(text: Seq<char>) -> Option<Seq<u8>>;

/// Reads a hash from `text` through the `FromStr` of
/// `near_primitives::hash::CryptoHash`, which decodes the text as base 58
/// into 32 bytes. The result is what that parser gives for this text, an
/// error standing as `None`; a hash that it gives has 32 bytes.
#[verifier::external_body]
fn parse_hash(text: &str) -> (hash: Option<Vec<u8>>)
    ensures
        (match hash {
            Some(bytes) => Some(bytes@),
            None => None,
        }) == hash_bytes(text@),
        hash matches Some(bytes) ==> bytes@.len() == 32,
{
    text.parse::<near_primitives::hash::CryptoHash>().ok().map(|hash| hash.0.to_vec())
}

/// What is made of a request, for each answer of the hash parser. The
/// outer `Option` of each argument says whether the request held the field,
/// the inner one what the parser made of it.
pub open spec fn trigger_of(
    receipt_id: Option<Option<Seq<u8>>>,
    block_hash: Option<Option<Seq<u8>>>,
) -> Result<(Seq<u8>, Option<Seq<u8>>), TriggerError> {
    match receipt_id {
        None => Err(TriggerError::MissingReceiptId),
        Some(None) => Err(TriggerError::MalformedReceiptId),
        Some(Some(receipt)) => match block_hash {
            None => Ok((receipt, None)),
            Some(None) => Err(TriggerError::MalformedBlockHash),
            Some(Some(block)) => Ok((receipt, Some(block))),
        },
    }
}

/// The fields of a request as `trigger_of` takes them.
pub open spec fn parsed_view(field: Option<Option<Vec<u8>>>) -> Option<Option<Seq<u8>>> {
    match field {
        None => None,
        Some(None) => Some(None),
        Some(Some(bytes)) => Some(Some(bytes@)),
    }
}

/// A request as `trigger_of` gives it.
pub open spec fn request_view(request: TriggerRequest) -> (Seq<u8>, Option<Seq<u8>>) {
    (
        request.receipt_id@,
        match request.block_hash {
            Some(bytes) => Some(bytes@),
            None => None,
        },
    )
}

/// Makes a request from its two fields, each as the hash parser left it. A
/// request without receipt is turned away, and so is one whose receipt or
/// block hash is no hash. A request without block hash is well formed.
pub fn trigger_from_parsed(
    receipt_id: Option<Option<Vec<u8>>>,
    block_hash: Option<Option<Vec<u8>>>,
) -> (request: Result<TriggerRequest, TriggerError>)
    ensures
        match request {
            Ok(made) => trigger_of(parsed_view(receipt_id), parsed_view(block_hash)) == Ok::<
                (Seq<u8>, Option<Seq<u8>>),
                TriggerError,
            >(request_view(made)),
            Err(error) => trigger_of(parsed_view(receipt_id), parsed_view(block_hash)) == Err::<
                (Seq<u8>, Option<Seq<u8>>),
                TriggerError,
            >(error),
        },
{
    match receipt_id {
        None => Err(TriggerError::MissingReceiptId),
        Some(None) => Err(TriggerError::MalformedReceiptId),
        Some(Some(receipt)) => match block_hash {
            None => Ok(TriggerRequest { receipt_id: receipt, block_hash: None }),
            Some(None) => Err(TriggerError::MalformedBlockHash),
            Some(Some(block)) => Ok(TriggerRequest { receipt_id: receipt, block_hash: Some(block) }),
        },
    }
}

/// What the hash parser makes of a field of a request.
pub open spec fn field_hash(field: Option<String>) -> Option<Option<Seq<u8>>> {
    match field {
        Some(text) => Some(hash_bytes(text@)),
        None => None,
    }
}

fn parse_field(field: &Option<String>) -> (parsed: Option<Option<Vec<u8>>>)
    ensures
        parsed_view(parsed) == field_hash(*field),
{
    match field {
        Some(text) => Some(parse_hash(text.as_str())),
        None => None,
    }
}

/// Checks a request as it came in: its receipt identifier, which it must
/// hold, and its block hash, which it may hold.
pub fn validate_trigger(receipt_id: &Option<String>, block_hash: &Option<String>) -> (request:
    Result<TriggerRequest, TriggerError>)
    ensures
        match request {
            Ok(made) => trigger_of(field_hash(*receipt_id), field_hash(*block_hash)) == Ok::<
                (Seq<u8>, Option<Seq<u8>>),
                TriggerError,
            >(request_view(made)),
            Err(error) => trigger_of(field_hash(*receipt_id), field_hash(*block_hash)) == Err::<
                (Seq<u8>, Option<Seq<u8>>),
                TriggerError,
            >(error),
        },
{
    trigger_from_parsed(parse_field(receipt_id), parse_field(block_hash))
}

} // verus!
