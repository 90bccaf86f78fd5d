//! What the library reads of a response of the ledger's query service, and
//! the errors that a fetch can end in.

use vstd::prelude::*;

verus! {

/// Why a fetch failed.
#[derive(Clone, Copy, Debug, PartialEq, Eq, Structural)]
pub enum FetchError {
    /// The validator's name is no account identifier.
    InvalidAccountId,
    /// The arguments of a call could not be written as JSON.
    Encoding,
    /// The response to a view-function call was of another kind.
    UnexpectedKind,
    /// The result of a call could not be parsed.
    Parse,
    /// The remote call failed for a reason that may pass.
    Remote,
}

impl FetchError {
    /// Whether a call that failed so may be made again: only a failure of
    /// the remote call may pass. A response that cannot be parsed will not
    /// parse the next time.
    pub open spec fn transient(self) -> bool {
        self == FetchError::Remote
    }

    /// Says whether a call that failed so may be made again.
    pub fn is_transient(&self) -> (again: bool)
        ensures
            again == self.transient(),
    {
        match self {
            FetchError::Remote => true,
            _ => false,
        }
    }

    /// The failure in words.
    pub fn message(&self) -> (text: &'static str)
        ensures
            text@ == match self {
                FetchError::InvalidAccountId => "Failed to parse the account id"@,
                FetchError::Encoding => "Failed to encode the call arguments"@,
                FetchError::UnexpectedKind => "Internal error: Received unexpected query kind in response to a view-function query call"@,
                FetchError::Parse => "Failed to parse view-function call result"@,
                FetchError::Remote => "Remote call failed"@,
            },
    {
        match self {
            FetchError::InvalidAccountId => "Failed to parse the account id",
            FetchError::Encoding => "Failed to encode the call arguments",
            FetchError::UnexpectedKind => "Internal error: Received unexpected query kind in response to a view-function query call",
            FetchError::Parse => "Failed to parse view-function call result",
            FetchError::Remote => "Remote call failed",
        }
    }
}

/// Why the query service refused a query, as far as a fetch tells the
/// reasons apart.
#[derive(Clone, Copy, Debug, PartialEq, Eq, Structural)]
pub enum QueryFailure {
    /// The account has no contract code.
    NoContractCode,
    /// The contract failed while it ran the call.
    ContractExecutionError,
    /// Any other failure: of the network, of the server, a timeout.
    Other,
}

impl QueryFailure {
    /// The account runs no staking pool that answers: it has no contract, or
    /// the call fails in it. That is no error: such an account has no
    /// delegators.
    pub open spec fn absent(self) -> bool {
        self == QueryFailure::NoContractCode || self == QueryFailure::ContractExecutionError
    }
}

/// The result of a view-function call.
#[derive(Debug)]
pub struct CallResult {
    pub result: Vec<u8>,
    pub logs: Vec<String>,
}

/// One key and value of a contract's state.
#[derive(Debug)]
pub struct StateItem {
    pub key: Vec<u8>,
    pub value: Vec<u8>,
}

/// The kinds of response that the library tells apart.
#[derive(Debug)]
pub enum QueryResponseKind {
    /// The result of a view-function call.
    CallResult(CallResult),
    /// The state of a contract.
    ViewState(Vec<StateItem>),
    /// Any other kind.
    Other,
}

/// A response of the query service.
#[derive(Debug)]
pub struct RpcQueryResponse {
    pub kind: QueryResponseKind,
}

/// One delegator of a staking pool, as a page of the pool's accounts lists
/// it.
#[derive(Debug)]
pub struct Delegator {
    pub account_id: String,
}

/// The number that `serde_json::from_slice` reads from `bytes` as a `u64`,
/// if it reads one.
pub uninterp spec fn json_number(bytes: Seq<u8>) -> Option<u64>;

/// Parses `bytes` as the JSON text of an unsigned number, by
/// `serde_json::from_slice::<u64>`. The result is what that function gives
/// for these bytes, an error standing as `None`.
#[verifier::external_body]
fn parse_json_number(bytes: &[u8]) -> (number: Option<u64>)
    ensures
        number == json_number(bytes@),
{
    serde_json::from_slice::<u64>(bytes).ok()
}

/// The number that a call result holds, for each outcome of the parser.
pub open spec fn number_of(parsed: Option<u64>) -> Result<u64, FetchError> {
    match parsed {
        Some(number) => Ok(number),
        None => Err(FetchError::Parse),
    }
}

/// What a fetch makes of the parser's answer: the number, or a parse error.
pub fn number_from_parsed(parsed: Option<u64>) -> (number: Result<u64, FetchError>)
    ensures
        number == number_of(parsed),
{
    match parsed {
        Some(number) => Ok(number),
        None => Err(FetchError::Parse),
    }
}

impl RpcQueryResponse {
    /// The call result that the response holds; a response of another kind
    /// is an error.
    pub fn call_result(&self) -> (result: Result<CallResult, FetchError>)
        ensures
            self.kind is CallResult <==> result is Ok,
            result matches Ok(found) ==> found.result@ == self.kind->CallResult_0.result@
                && found.logs@ == self.kind->CallResult_0.logs@,
            result matches Err(error) ==> error == FetchError::UnexpectedKind,
    {
        match &self.kind {
            QueryResponseKind::CallResult(found) => {
                let result = found.result.clone();
                let logs = found.logs.clone();
                assert(result@ =~= found.result@);
                assert(logs@ =~= found.logs@);
                Ok(CallResult { result, logs })
            },
            _ => Err(FetchError::UnexpectedKind),
        }
    }
}

impl CallResult {
    /// The number that the result holds as JSON text; a result that is no
    /// such text is a parse error.
    pub fn parse_result_from_json(&self) -> (number: Result<u64, FetchError>)
        ensures
            number == number_of(json_number(self.result@)),
    {
        number_from_parsed(parse_json_number(self.result.as_slice()))
    }
}

} // verus!
