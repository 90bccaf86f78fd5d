//! What a fetch asks of the ledger's query service and what it makes of the
//! answers: the calls for one validator's delegators, page by page, the
//! union of the pages, the validators that discovery finds among the parts
//! of an epoch, the pools that the pool factory lists, and when a failed
//! call is made again.

use crate::account_set::{views_of, AccountSet};
use crate::extensions::{
    number_of, Delegator, FetchError, QueryFailure, QueryResponseKind, RpcQueryResponse,
    StateItem,
};
use vstd::prelude::*;
use vstd::utf8::*;

verus! {

/// How often a call that fails for a reason that may pass is made in all.
pub const ATTEMPTS: u8 = 20;

/// The number of delegators that one page holds at most.
pub const LIMIT: u64 = 500;

/// The number of page calls that may be under way at one time.
pub const PAGES_IN_FLIGHT: usize = 50;

/// Milliseconds between a failed call and the next attempt.
pub const RETRY_DELAY_MS: u64 = 500;

/// The view function that gives the number of a pool's delegators.
pub const NUMBER_METHOD: &'static str = "get_number_of_accounts";

/// The view function that gives one page of a pool's delegators.
pub const ACCOUNTS_METHOD: &'static str = "get_accounts";

/// One of `-`, `_` and `.`, which part an account identifier.
pub open spec fn is_separator(c: char) -> bool {
    c == '-' || c == '_' || c == '.'
}

/// A lower-case letter of the Latin alphabet or a digit.
pub open spec fn is_plain(c: char) -> bool {
    ('a' <= c && c <= 'z') || ('0' <= c && c <= '9')
}

/// `id` is an account identifier of the ledger: 2 to 64 characters, each
/// plain or a separator, with no separator at either end and no two
/// separators in a row.
pub open spec fn valid_account_id(id: Seq<char>) -> bool {
    &&& 2 <= id.len() <= 64
    &&& forall|i: int| 0 <= i < id.len() ==> is_plain(#[trigger] id[i]) || is_separator(id[i])
    &&& !is_separator(id[0])
    &&& !is_separator(id[id.len() - 1])
    &&& forall|i: int|
        0 < i < id.len() ==> !(is_separator(#[trigger] id[i]) && is_separator(id[i - 1]))
}

/// Asks `near_primitives::types::AccountId`, through its `FromStr`, whether
/// `text` is an account identifier. That parser accepts a text of 2 to 64
/// bytes made of lower-case letters, digits and the separators `-`, `_`
/// and `.`, where no separator stands first, last or next to another.
#[verifier::external_body]
fn parses_as_account_id(text: &str) -> (valid: bool)
    ensures
        valid == valid_account_id(text@),
{
    text.parse::<near_primitives::types::AccountId>().is_ok()
}

/// The arguments of a view-function call, before they are written as JSON.
#[derive(Debug)]
pub enum CallArgs {
    /// No arguments: the JSON value `null`.
    Nothing,
    /// A JSON object of named numbers.
    Numbers(Vec<(String, u64)>),
}

/// The names and numbers of `fields`, the names as character sequences.
pub open spec fn fields_of(fields: Seq<(String, u64)>) -> Seq<(Seq<char>, u64)> {
    Seq::new(fields.len(), |i: int| (fields[i].0@, fields[i].1))
}

impl CallArgs {
    /// The arguments as plain values: nothing, or the named numbers.
    pub open spec fn shape(&self) -> Option<Seq<(Seq<char>, u64)>> {
        match self {
            CallArgs::Nothing => None,
            CallArgs::Numbers(fields) => Some(fields_of(fields@)),
        }
    }
}

/// The bytes that `serde_json::to_vec` writes for arguments of this shape,
/// if it writes any.
pub uninterp spec fn json_text(shape: Option<Seq<(Seq<char>, u64)>>) -> Option<Seq<u8>>;

/// Writes `args` as JSON by `serde_json::to_vec`: `null` for no arguments,
/// else an object with one member for each named number. The result is what
/// that function gives for this value, an error standing as `None`.
#[verifier::external_body]
fn to_json(args: &CallArgs) -> (text: Option<Vec<u8>>)
    ensures
        (match text {
            Some(bytes) => Some(bytes@),
            None => None,
        }) == json_text(args.shape()),
{
    let value = match args {
        CallArgs::Nothing => serde_json::Value::Null,
        CallArgs::Numbers(fields) => serde_json::Value::Object(
            fields.iter().map(|field| (field.0.clone(), serde_json::Value::from(field.1))).collect(),
        ),
    };
    serde_json::to_vec(&value).ok()
}

/// A call of a view function of a contract.
#[derive(Debug)]
pub struct ViewCall {
    pub account_id: String,
    pub method_name: String,
    pub args: Vec<u8>,
}

/// The call that `view_call` makes, or the error it ends in, for each
/// answer of the account parser and of the JSON writer.
pub open spec fn view_call_of(valid: bool, text: Option<Seq<u8>>) -> Result<Seq<u8>, FetchError> {
    if !valid {
        Err(FetchError::InvalidAccountId)
    } else {
        match text {
            Some(bytes) => Ok(bytes),
            None => Err(FetchError::Encoding),
        }
    }
}

/// Puts a call together from what the account parser said of the
/// validator's name and what the JSON writer made of the arguments. A name
/// that is no account identifier is an error, and so are arguments that
/// could not be written; else the call names the validator's account and
/// the method, and carries the written arguments.
pub fn view_call(
    validator_account_id: &str,
    valid: bool,
    method_name: &str,
    text: Option<Vec<u8>>,
) -> (call: Result<ViewCall, FetchError>)
    ensures
        match call {
            Ok(made) => text matches Some(bytes) && view_call_of(valid, Some(bytes@)) == Ok::<
                Seq<u8>,
                FetchError,
            >(made.args@) && made.account_id@ == validator_account_id@ && made.method_name@
                == method_name@,
            Err(error) => view_call_of(
                valid,
                match text {
                    Some(bytes) => Some(bytes@),
                    None => None,
                },
            ) == Err::<Seq<u8>, FetchError>(error),
        },
{
    if !valid {
        return Err(FetchError::InvalidAccountId);
    }
    match text {
        Some(args) => Ok(
            ViewCall {
                account_id: validator_account_id.to_owned(),
                method_name: method_name.to_owned(),
                args,
            },
        ),
        None => Err(FetchError::Encoding),
    }
}

/// The call that asks a validator's pool for the number of its delegators:
/// `get_number_of_accounts` with no arguments.
pub fn number_of_delegators_call(validator_account_id: &str) -> (call: Result<
    ViewCall,
    FetchError,
>)
    ensures
        match call {
            Ok(made) => view_call_of(valid_account_id(validator_account_id@), json_text(None))
                == Ok::<Seq<u8>, FetchError>(made.args@) && made.account_id@
                == validator_account_id@ && made.method_name@ == NUMBER_METHOD@,
            Err(error) => view_call_of(valid_account_id(validator_account_id@), json_text(None))
                == Err::<Seq<u8>, FetchError>(error),
        },
{
    let valid = parses_as_account_id(validator_account_id);
    let text = to_json(&CallArgs::Nothing);
    view_call(validator_account_id, valid, NUMBER_METHOD, text)
}

/// The shape of the arguments of a page call: where the page starts and how
/// many delegators it holds at most.
pub open spec fn page_shape(from_index: u64) -> Option<Seq<(Seq<char>, u64)>> {
    Some(seq![("from_index"@, from_index), ("limit"@, LIMIT)])
}

/// The call that asks a validator's pool for the page of its delegators
/// that starts at `from_index`: `get_accounts` with `from_index` and a
/// `limit` of `LIMIT`.
pub fn delegators_page_call(validator_account_id: &str, from_index: u64) -> (call: Result<
    ViewCall,
    FetchError,
>)
    ensures
        match call {
            Ok(made) => view_call_of(
                valid_account_id(validator_account_id@),
                json_text(page_shape(from_index)),
            ) == Ok::<Seq<u8>, FetchError>(made.args@) && made.account_id@
                == validator_account_id@ && made.method_name@ == ACCOUNTS_METHOD@,
            Err(error) => view_call_of(
                valid_account_id(validator_account_id@),
                json_text(page_shape(from_index)),
            ) == Err::<Seq<u8>, FetchError>(error),
        },
{
    let valid = parses_as_account_id(validator_account_id);
    let mut fields: Vec<(String, u64)> = Vec::new();
    fields.push(("from_index".to_owned(), from_index));
    fields.push(("limit".to_owned(), LIMIT));
    let args = CallArgs::Numbers(fields);
    assert(args.shape() == page_shape(from_index)) by {
        assert(fields_of(fields@) =~= seq![("from_index"@, from_index), ("limit"@, LIMIT)]);
    }
    let text = to_json(&args);
    view_call(validator_account_id, valid, ACCOUNTS_METHOD, text)
}

/// The number of a validator's delegators that an answer to the number
/// call stands for. A call result holds the number as JSON text. An account
/// without contract code, or whose contract fails in the call, runs no
/// staking pool: it has no delegators, and that is no error. Any other
/// failure is one of the remote call.
pub open spec fn count_of(response: Result<RpcQueryResponse, QueryFailure>) -> Result<
    u64,
    FetchError,
> {
    match response {
        Ok(answer) => match answer.kind {
            QueryResponseKind::CallResult(found) => number_of(
                crate::extensions::json_number(found.result@),
            ),
            _ => Err(FetchError::UnexpectedKind),
        },
        Err(failure) => if failure.absent() {
            Ok(0)
        } else {
            Err(FetchError::Remote)
        },
    }
}

/// The number of a validator's delegators, from the answer to the number
/// call.
pub fn get_number_of_delegators(response: &Result<RpcQueryResponse, QueryFailure>) -> (number:
    Result<u64, FetchError>)
    ensures
        number == count_of(*response),
{
    match response {
        Ok(answer) => match answer.call_result() {
            Ok(found) => found.parse_result_from_json(),
            Err(error) => Err(error),
        },
        Err(QueryFailure::NoContractCode) => Ok(0),
        Err(QueryFailure::ContractExecutionError) => Ok(0),
        Err(QueryFailure::Other) => Err(FetchError::Remote),
    }
}

/// The number of pages that hold `number` delegators.
pub open spec fn page_count(number: u64) -> int {
    (number + LIMIT - 1) / (LIMIT as int)
}

/// Where the pages of `number` delegators start: at 0, `LIMIT`, twice
/// `LIMIT` and so on, below `number`.
pub open spec fn offsets_of(number: u64) -> Seq<u64> {
    Seq::new(page_count(number) as nat, |i: int| (i * LIMIT) as u64)
}

/// The pages cover every delegator once: the delegator of index `index`
/// stands on the page of number `index / LIMIT` and on no other.
pub proof fn lemma_pages_cover(number: u64, index: u64, page: int)
    requires
        index < number,
        0 <= page < page_count(number),
    ensures
        index / LIMIT < page_count(number),
        offsets_of(number)[page] <= index < offsets_of(number)[page] + LIMIT <==> page == index
            / LIMIT,
{
}

/// Where the pages of `number_of_delegators` delegators start.
pub fn page_offsets(number_of_delegators: u64) -> (offsets: Vec<u64>)
    ensures
        offsets@ == offsets_of(number_of_delegators),
        forall|i: int| 0 <= i < offsets@.len() ==> (#[trigger] offsets@[i]) < number_of_delegators,
{
    let whole = number_of_delegators / LIMIT;
    let pages = if number_of_delegators % LIMIT != 0 {
        whole + 1
    } else {
        whole
    };
    assert(pages == page_count(number_of_delegators));
    let mut offsets: Vec<u64> = Vec::new();
    let mut i: u64 = 0;
    while i < pages
        invariant
            i <= pages,
            pages == page_count(number_of_delegators),
            offsets@.len() == i,
            forall|j: int| 0 <= j < i ==> (#[trigger] offsets@[j]) == j * LIMIT,
        decreases pages - i,
    {
        assert(i * LIMIT < number_of_delegators);
        offsets.push(i * LIMIT);
        i += 1;
    }
    assert(offsets@ =~= offsets_of(number_of_delegators));
    offsets
}

/// The answer to one page call, as far as a fetch tells answers apart.
#[derive(Debug)]
pub enum PageResponse {
    /// The call result was a list of delegators.
    Delegators(Vec<Delegator>),
    /// The call result was no list of delegators.
    Malformed,
    /// The response was of another kind than a call result.
    UnexpectedKind,
    /// The query service refused the call.
    Failed(QueryFailure),
}

/// The account identifiers of `delegators`.
pub open spec fn account_ids(delegators: Seq<Delegator>) -> Set<Seq<char>> {
    Set::new(
        |id: Seq<char>|
            exists|i: int| 0 <= i < delegators.len() && (#[trigger] delegators[i]).account_id@ == id,
    )
}

/// The delegators that an answer to a page call stands for. An account
/// without contract code, or whose contract fails in the call, gives an
/// empty page and no error. A result that is no list of delegators is a
/// parse error, and any other failure is one of the remote call.
pub open spec fn page_of(response: PageResponse) -> Result<Set<Seq<char>>, FetchError> {
    match response {
        PageResponse::Delegators(delegators) => Ok(account_ids(delegators@)),
        PageResponse::Malformed => Err(FetchError::Parse),
        PageResponse::UnexpectedKind => Err(FetchError::UnexpectedKind),
        PageResponse::Failed(failure) => if failure.absent() {
            Ok(Set::empty())
        } else {
            Err(FetchError::Remote)
        },
    }
}

/// The delegators of one page, from the answer to the page call.
pub fn delegators_of_page(response: &PageResponse) -> (page: Result<AccountSet, FetchError>)
    ensures
        match page {
            Ok(set) => page_of(*response) == Ok::<Set<Seq<char>>, FetchError>(set@),
            Err(error) => page_of(*response) == Err::<Set<Seq<char>>, FetchError>(error),
        },
{
    match response {
        PageResponse::Delegators(delegators) => {
            let mut set = AccountSet::new();
            let n = delegators.len();
            let mut i: usize = 0;
            while i < n
                invariant
                    i <= n,
                    n == delegators@.len(),
                    set@ == account_ids(delegators@.take(i as int)),
                decreases n - i,
            {
                set.insert(delegators[i].account_id.clone());
                proof {
                    let done = delegators@.take(i as int);
                    let more = delegators@.take(i + 1);
                    let id = delegators@[i as int].account_id@;
                    assert forall|k: Seq<char>|
                        account_ids(more).contains(k) <==> account_ids(done).insert(id).contains(
                            k,
                        ) by {
                        if account_ids(more).contains(k) {
                            let j = choose|j: int|
                                0 <= j < more.len() && (#[trigger] more[j]).account_id@ == k;
                            if j < i {
                                assert(done[j].account_id@ == k);
                            }
                        }
                        if account_ids(done).contains(k) {
                            let j = choose|j: int|
                                0 <= j < done.len() && (#[trigger] done[j]).account_id@ == k;
                            assert(more[j].account_id@ == k);
                        }
                        assert(more[i as int].account_id@ == id);
                    }
                    assert(set@ =~= account_ids(more));
                }
                i += 1;
            }
            proof {
                assert(delegators@.take(n as int) =~= delegators@);
            }
            Ok(set)
        },
        PageResponse::Malformed => Err(FetchError::Parse),
        PageResponse::UnexpectedKind => Err(FetchError::UnexpectedKind),
        PageResponse::Failed(QueryFailure::NoContractCode) => Ok(AccountSet::new()),
        PageResponse::Failed(QueryFailure::ContractExecutionError) => Ok(AccountSet::new()),
        PageResponse::Failed(QueryFailure::Other) => Err(FetchError::Remote),
    }
}

/// Every account that stands on one of `pages`. An account that stands on
/// two pages, as happens where delegators join or leave while the pages are
/// fetched, is counted once.
pub open spec fn union_of(pages: Seq<PageResponse>) -> Set<Seq<char>> {
    Set::new(
        |id: Seq<char>|
            exists|i: int|
                0 <= i < pages.len() && (#[trigger] page_of(pages[i])) is Ok && page_of(
                    pages[i],
                )->Ok_0.contains(id),
    )
}

/// The delegators of a validator, from the answers to all its page calls:
/// the union of the pages. Where a page failed, the fetch fails with the
/// error of the first such page. No pages, as for a validator without
/// delegators, give the empty set.
pub fn get_delegators_by_validator_account_id(pages: &Vec<PageResponse>) -> (delegators: Result<
    AccountSet,
    FetchError,
>)
    ensures
        match delegators {
            Ok(set) => set@ == union_of(pages@) && forall|i: int|
                0 <= i < pages@.len() ==> (#[trigger] page_of(pages@[i])) is Ok,
            Err(error) => exists|i: int|
                0 <= i < pages@.len() && (#[trigger] page_of(pages@[i])) == Err::<
                    Set<Seq<char>>,
                    FetchError,
                >(error) && forall|j: int| 0 <= j < i ==> (#[trigger] page_of(pages@[j])) is Ok,
        },
{
    let mut all = AccountSet::new();
    let n = pages.len();
    let mut i: usize = 0;
    while i < n
        invariant
            i <= n,
            n == pages@.len(),
            all@ == union_of(pages@.take(i as int)),
            forall|j: int| 0 <= j < i ==> (#[trigger] page_of(pages@[j])) is Ok,
        decreases n - i,
    {
        match delegators_of_page(&pages[i]) {
            Ok(page) => {
                all.union_with(&page);
                proof {
                    let done = pages@.take(i as int);
                    let more = pages@.take(i + 1);
                    assert forall|k: Seq<char>|
                        union_of(more).contains(k) <==> union_of(done).union(page@).contains(
                            k,
                        ) by {
                        if union_of(more).contains(k) {
                            let j = choose|j: int|
                                0 <= j < more.len() && (#[trigger] page_of(more[j])) is Ok
                                    && page_of(more[j])->Ok_0.contains(k);
                            if j < i {
                                assert(done[j] == more[j]);
                                assert(page_of(done[j]) is Ok);
                            }
                        }
                        if union_of(done).contains(k) {
                            let j = choose|j: int|
                                0 <= j < done.len() && (#[trigger] page_of(done[j])) is Ok
                                    && page_of(done[j])->Ok_0.contains(k);
                            assert(more[j] == done[j]);
                            assert(page_of(more[j]) is Ok);
                        }
                        if page@.contains(k) {
                            assert(more[i as int] == pages@[i as int]);
                            assert(page_of(more[i as int]) is Ok);
                        }
                    }
                    assert(all@ =~= union_of(more));
                }
            },
            Err(error) => {
                return Err(error);
            },
        }
        i += 1;
    }
    proof {
        assert(pages@.take(n as int) =~= pages@);
    }
    Ok(all)
}

/// The number that four bytes stand for, the lowest byte first.
pub open spec fn le_u32(bytes: Seq<u8>) -> int {
    bytes[0] + 256 * bytes[1] + 65536 * bytes[2] + 16777216 * bytes[3]
}

/// The string that `bytes` hold in the Borsh encoding: four bytes with the
/// length, the lowest first, then exactly that many bytes of UTF-8 text.
pub open spec fn borsh_string(bytes: Seq<u8>) -> Option<Seq<char>> {
    if bytes.len() >= 4 && le_u32(bytes) == bytes.len() - 4 && valid_utf8(bytes.skip(4)) {
        Some(decode_utf8(bytes.skip(4)))
    } else {
        None
    }
}

/// Reads a string from `bytes` by `borsh::BorshDeserialize::try_from_slice`
/// for `String`. That function reads a length of four bytes, the lowest
/// first, then that many bytes, which must be UTF-8 text, and fails where
/// bytes are missing or left over. An error stands as `None`.
#[verifier::external_body]
fn decode_borsh_string(bytes: &[u8]) -> (text: Option<String>)
    ensures
        (match text {
            Some(string) => Some(string@),
            None => None,
        }) == borsh_string(bytes@),
{
    <String as borsh::BorshDeserialize>::try_from_slice(bytes).ok()
}

/// The key of a state item that names a staking pool: it starts with the
/// bytes of `se`.
pub open spec fn is_pool_key(key: Seq<u8>) -> bool {
    key.len() >= 2 && key[0] == 115 && key[1] == 101
}

/// The staking pool that a state item names, if it names one.
pub open spec fn pool_name(item: StateItem) -> Option<Seq<char>> {
    if is_pool_key(item.key@) {
        borsh_string(item.value@)
    } else {
        None
    }
}

/// The staking pools that the items of a contract's state name.
pub open spec fn pool_names(items: Seq<StateItem>) -> Set<Seq<char>> {
    Set::new(
        |name: Seq<char>|
            exists|i: int| 0 <= i < items.len() && pool_name(#[trigger] items[i]) == Some(name),
    )
}

/// Whether `key` starts with the bytes of `se`.
fn names_pool(key: &Vec<u8>) -> (named: bool)
    ensures
        named == is_pool_key(key@),
{
    key.len() >= 2 && key[0] == 115 && key[1] == 101
}

/// The staking pools that the state of the pool factory names: the strings
/// that the values of its `se` items hold. An item of another key, or whose
/// value holds no string, names none. A response that holds no state is an
/// error. The factory lists the pools that it made; which accounts are
/// validators is for `get_all_validators` to say.
pub fn get_factory_pools(response: &RpcQueryResponse) -> (validators: Result<
    AccountSet,
    FetchError,
>)
    ensures
        match validators {
            Ok(set) => response.kind is ViewState && set@ == pool_names(
                response.kind->ViewState_0@,
            ),
            Err(error) => !(response.kind is ViewState) && error == FetchError::UnexpectedKind,
        },
{
    match &response.kind {
        QueryResponseKind::ViewState(items) => {
            let mut set = AccountSet::new();
            let n = items.len();
            let mut i: usize = 0;
            while i < n
                invariant
                    i <= n,
                    n == items@.len(),
                    set@ == pool_names(items@.take(i as int)),
                decreases n - i,
            {
                let item = &items[i];
                if names_pool(&item.key) {
                    match decode_borsh_string(item.value.as_slice()) {
                        Some(name) => {
                            set.insert(name);
                        },
                        None => {},
                    }
                }
                proof {
                    let done = items@.take(i as int);
                    let more = items@.take(i + 1);
                    let named = pool_name(items@[i as int]);
                    assert forall|k: Seq<char>|
                        pool_names(more).contains(k) <==> (pool_names(done).contains(k) || named
                            == Some(k)) by {
                        if pool_names(more).contains(k) {
                            let j = choose|j: int|
                                0 <= j < more.len() && pool_name(#[trigger] more[j]) == Some(k);
                            if j < i {
                                assert(pool_name(done[j]) == Some(k));
                            }
                        }
                        if pool_names(done).contains(k) {
                            let j = choose|j: int|
                                0 <= j < done.len() && pool_name(#[trigger] done[j]) == Some(k);
                            assert(pool_name(more[j]) == Some(k));
                        }
                        if named == Some(k) {
                            assert(pool_name(more[i as int]) == Some(k));
                        }
                    }
                    assert(set@ =~= pool_names(more));
                }
                i += 1;
            }
            proof {
                assert(items@.take(n as int) =~= items@);
            }
            Ok(set)
        },
        _ => Err(FetchError::UnexpectedKind),
    }
}

/// The accounts that play a part in validation in one epoch, by the part
/// they play.
#[derive(Debug)]
pub struct EpochValidators {
    pub current_validators: Vec<String>,
    pub next_validators: Vec<String>,
    pub current_fishermen: Vec<String>,
    pub next_fishermen: Vec<String>,
    pub current_proposals: Vec<String>,
    pub prev_epoch_kickout: Vec<String>,
}

impl EpochValidators {
    /// Every account that plays any of the parts: a delegator may stand
    /// with any of them.
    pub open spec fn everyone(&self) -> Set<Seq<char>> {
        views_of(self.current_validators@).to_set().union(
            views_of(self.next_validators@).to_set(),
        ).union(views_of(self.current_fishermen@).to_set()).union(
            views_of(self.next_fishermen@).to_set(),
        ).union(views_of(self.current_proposals@).to_set()).union(
            views_of(self.prev_epoch_kickout@).to_set(),
        )
    }

}

/// The validators that discovery finds, from the answer of the query
/// service to the question for the validators of the epoch: exactly the
/// accounts that play any of the six parts, each once.
pub fn get_all_validators(roles: &EpochValidators) -> (validators: AccountSet)
    ensures
        validators@ == roles.everyone(),
{
    let mut validators = AccountSet::from_vec(&roles.current_validators);
    validators.union_with(&AccountSet::from_vec(&roles.next_validators));
    validators.union_with(&AccountSet::from_vec(&roles.current_fishermen));
    validators.union_with(&AccountSet::from_vec(&roles.next_fishermen));
    validators.union_with(&AccountSet::from_vec(&roles.current_proposals));
    validators.union_with(&AccountSet::from_vec(&roles.prev_epoch_kickout));
    validators
}

/// What to do after a call has failed.
#[derive(Clone, Copy, Debug, PartialEq, Eq, Structural)]
pub enum RetryDecision {
    /// Make the call again after so many milliseconds.
    RetryAfter { delay_ms: u64 },
    /// Make it no more: the fetch has failed.
    GiveUp,
}

/// What to do after one attempt at a call, with what the attempt gave.
#[derive(Debug)]
pub enum Attempt<T> {
    /// The call succeeded with this value.
    Done(T),
    /// Make the call again after so many milliseconds.
    RetryAfter { delay_ms: u64 },
    /// Make it no more: the call has failed for good, with this error.
    Failed(FetchError),
}

/// How often a failed call is made again, and after what delay.
#[derive(Clone, Copy, Debug, PartialEq, Eq, Structural)]
pub struct RetryPolicy {
    pub max_attempts: u8,
    pub delay_ms: u64,
}

impl RetryPolicy {
    /// The policy of a fetch: `ATTEMPTS` attempts in all, `RETRY_DELAY_MS`
    /// apart.
    pub fn standard() -> (policy: Self)
        ensures
            policy == (RetryPolicy { max_attempts: ATTEMPTS, delay_ms: RETRY_DELAY_MS }),
    {
        RetryPolicy { max_attempts: ATTEMPTS, delay_ms: RETRY_DELAY_MS }
    }

    /// What to do after a call has failed with `error`, `attempts_made`
    /// attempts made in all, this one counted. The call is made again only
    /// where the failure may pass and attempts are left.
    pub open spec fn decision(self, error: FetchError, attempts_made: u8) -> RetryDecision {
        if error.transient() && attempts_made < self.max_attempts {
            RetryDecision::RetryAfter { delay_ms: self.delay_ms }
        } else {
            RetryDecision::GiveUp
        }
    }

    /// Decides what to do after a call has failed with `error`,
    /// `attempts_made` attempts made in all, this one counted.
    pub fn after_failure(&self, error: FetchError, attempts_made: u8) -> (decision: RetryDecision)
        ensures
            decision == self.decision(error, attempts_made),
    {
        if error.is_transient() && attempts_made < self.max_attempts {
            RetryDecision::RetryAfter { delay_ms: self.delay_ms }
        } else {
            RetryDecision::GiveUp
        }
    }

    /// What follows on an attempt that gave `outcome`, `attempts_made`
    /// attempts made in all, this one counted: a success ends the call with
    /// its value, a failure is handled as `decision` says.
    pub open spec fn following<T>(
        self,
        outcome: Result<T, FetchError>,
        attempts_made: u8,
    ) -> Attempt<T> {
        match outcome {
            Ok(value) => Attempt::Done(value),
            Err(error) => match self.decision(error, attempts_made) {
                RetryDecision::RetryAfter { delay_ms } => Attempt::RetryAfter { delay_ms },
                RetryDecision::GiveUp => Attempt::Failed(error),
            },
        }
    }

    /// Decides what follows on an attempt that gave `outcome`,
    /// `attempts_made` attempts made in all, this one counted.
    pub fn after_attempt<T>(&self, outcome: Result<T, FetchError>, attempts_made: u8) -> (step:
        Attempt<T>)
        ensures
            step == self.following(outcome, attempts_made),
    {
        match outcome {
            Ok(value) => Attempt::Done(value),
            Err(error) => match self.after_failure(error, attempts_made) {
                RetryDecision::RetryAfter { delay_ms } => Attempt::RetryAfter { delay_ms },
                RetryDecision::GiveUp => Attempt::Failed(error),
            },
        }
    }
}

} // verus!
