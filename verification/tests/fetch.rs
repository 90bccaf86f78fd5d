use pool_delegators::account_set::AccountSet;
use pool_delegators::extensions::{
    number_from_parsed, CallResult, Delegator, FetchError, QueryFailure, QueryResponseKind,
    RpcQueryResponse, StateItem,
};
use pool_delegators::methods::{
    delegators_of_page, delegators_page_call, get_all_validators,
    get_delegators_by_validator_account_id, get_factory_pools, get_number_of_delegators, number_of_delegators_call,
    page_offsets, view_call, Attempt, EpochValidators, PageResponse, RetryDecision, RetryPolicy,
    ACCOUNTS_METHOD, ATTEMPTS, LIMIT, NUMBER_METHOD, PAGES_IN_FLIGHT, RETRY_DELAY_MS,
};

fn accounts(names: &[&str]) -> AccountSet {
    let mut set = AccountSet::new();
    for name in names {
        set.insert(name.to_string());
    }
    set
}

fn delegators(names: &[&str]) -> Vec<Delegator> {
    names.iter().map(|name| Delegator { account_id: name.to_string() }).collect()
}

fn call_result(bytes: &[u8]) -> RpcQueryResponse {
    RpcQueryResponse {
        kind: QueryResponseKind::CallResult(CallResult { result: bytes.to_vec(), logs: Vec::new() }),
    }
}

fn borsh(text: &str) -> Vec<u8> {
    let mut bytes = (text.len() as u32).to_le_bytes().to_vec();
    bytes.extend_from_slice(text.as_bytes());
    bytes
}

fn item(key: &[u8], value: Vec<u8>) -> StateItem {
    StateItem { key: key.to_vec(), value }
}

#[test]
fn fetch_constants() {
    assert_eq!(ATTEMPTS, 20);
    assert_eq!(LIMIT, 500);
    assert_eq!(PAGES_IN_FLIGHT, 50);
    assert_eq!(RETRY_DELAY_MS, 500);
    assert_eq!(NUMBER_METHOD, "get_number_of_accounts");
    assert_eq!(ACCOUNTS_METHOD, "get_accounts");
}

#[test]
fn number_call_has_no_arguments() {
    let call = number_of_delegators_call("pool.poolv1.near").unwrap();
    assert_eq!(call.account_id, "pool.poolv1.near");
    assert_eq!(call.method_name, "get_number_of_accounts");
    assert_eq!(call.args, b"null".to_vec());
}

#[test]
fn page_call_names_the_offset_and_the_limit() {
    let call = delegators_page_call("pool.poolv1.near", 1000).unwrap();
    assert_eq!(call.account_id, "pool.poolv1.near");
    assert_eq!(call.method_name, "get_accounts");
    assert_eq!(call.args, br#"{"from_index":1000,"limit":500}"#.to_vec());
    let first = delegators_page_call("aa", 0).unwrap();
    assert_eq!(first.args, br#"{"from_index":0,"limit":500}"#.to_vec());
}

#[test]
fn calls_for_a_name_that_is_no_account_fail() {
    for name in [
        "",
        "a",
        "Pool.near",
        "pool..near",
        ".pool",
        "pool.",
        "pool near",
        "-a",
        "a_",
        "a-_b",
        "pööl.near",
        "aaaaaaaaaaaaaaaaaaaaaaaaaaaaaaaaaaaaaaaaaaaaaaaaaaaaaaaaaaaaaaaaa",
    ] {
        assert_eq!(number_of_delegators_call(name).unwrap_err(), FetchError::InvalidAccountId);
        assert_eq!(delegators_page_call(name, 0).unwrap_err(), FetchError::InvalidAccountId);
    }
}

#[test]
fn calls_for_account_names_at_the_limits_succeed() {
    for name in [
        "aa",
        "a.b",
        "a-b_c.d",
        "0x",
        "100",
        "aaaaaaaaaaaaaaaaaaaaaaaaaaaaaaaaaaaaaaaaaaaaaaaaaaaaaaaaaaaaaaaa",
    ] {
        assert!(number_of_delegators_call(name).is_ok());
    }
}

#[test]
fn view_call_reports_what_went_wrong() {
    assert_eq!(
        view_call("pool.near", false, "m", Some(vec![1])).unwrap_err(),
        FetchError::InvalidAccountId
    );
    assert_eq!(view_call("pool.near", false, "m", None).unwrap_err(), FetchError::InvalidAccountId);
    assert_eq!(view_call("pool.near", true, "m", None).unwrap_err(), FetchError::Encoding);
    let call = view_call("pool.near", true, "m", Some(vec![1, 2])).unwrap();
    assert_eq!(call.account_id, "pool.near");
    assert_eq!(call.method_name, "m");
    assert_eq!(call.args, vec![1, 2]);
}

#[test]
fn number_of_delegators_is_parsed_from_the_call_result() {
    assert_eq!(get_number_of_delegators(&Ok(call_result(b"1200"))), Ok(1200));
    assert_eq!(get_number_of_delegators(&Ok(call_result(b"0"))), Ok(0));
    assert_eq!(get_number_of_delegators(&Ok(call_result(b" 7 "))), Ok(7));
    assert_eq!(
        get_number_of_delegators(&Ok(call_result(b"18446744073709551615"))),
        Ok(u64::MAX)
    );
}

#[test]
fn number_of_delegators_that_is_no_number_is_a_parse_error() {
    for bytes in [&b""[..], b"abc", b"-1", b"1.5", b"\"12\"", b"null", b"18446744073709551616", b"1 2"] {
        assert_eq!(get_number_of_delegators(&Ok(call_result(bytes))), Err(FetchError::Parse));
    }
}

#[test]
fn absent_contract_has_no_delegators() {
    assert_eq!(get_number_of_delegators(&Err(QueryFailure::NoContractCode)), Ok(0));
    assert_eq!(get_number_of_delegators(&Err(QueryFailure::ContractExecutionError)), Ok(0));
    let offsets = page_offsets(0);
    assert!(offsets.is_empty());
    let fetched = get_delegators_by_validator_account_id(&Vec::new()).unwrap();
    assert!(fetched.is_empty());
    let policy = RetryPolicy::standard();
    assert!(get_number_of_delegators(&Err(QueryFailure::NoContractCode)).is_ok());
    assert_eq!(policy.after_failure(FetchError::Parse, 1), RetryDecision::GiveUp);
}

#[test]
fn number_of_delegators_fails_on_other_answers() {
    assert_eq!(get_number_of_delegators(&Err(QueryFailure::Other)), Err(FetchError::Remote));
    let state = RpcQueryResponse { kind: QueryResponseKind::ViewState(Vec::new()) };
    assert_eq!(get_number_of_delegators(&Ok(state)), Err(FetchError::UnexpectedKind));
    let other = RpcQueryResponse { kind: QueryResponseKind::Other };
    assert_eq!(get_number_of_delegators(&Ok(other)), Err(FetchError::UnexpectedKind));
}

#[test]
fn call_result_is_taken_from_a_response_of_that_kind() {
    let response = RpcQueryResponse {
        kind: QueryResponseKind::CallResult(CallResult {
            result: b"42".to_vec(),
            logs: vec!["log".to_string()],
        }),
    };
    let found = response.call_result().unwrap();
    assert_eq!(found.result, b"42".to_vec());
    assert_eq!(found.logs, vec!["log".to_string()]);
    assert_eq!(found.parse_result_from_json(), Ok(42));
    let other = RpcQueryResponse { kind: QueryResponseKind::Other };
    assert_eq!(other.call_result().unwrap_err(), FetchError::UnexpectedKind);
    assert_eq!(number_from_parsed(Some(3)), Ok(3));
    assert_eq!(number_from_parsed(None), Err(FetchError::Parse));
}

#[test]
fn fetch_errors_have_words() {
    assert_eq!(
        FetchError::UnexpectedKind.message(),
        "Internal error: Received unexpected query kind in response to a view-function query call"
    );
    assert_eq!(FetchError::Parse.message(), "Failed to parse view-function call result");
    assert_eq!(FetchError::InvalidAccountId.message(), "Failed to parse the account id");
    assert_eq!(FetchError::Encoding.message(), "Failed to encode the call arguments");
    assert_eq!(FetchError::Remote.message(), "Remote call failed");
    assert!(FetchError::Remote.is_transient());
    assert!(!FetchError::Parse.is_transient());
    assert!(!FetchError::UnexpectedKind.is_transient());
    assert!(!FetchError::InvalidAccountId.is_transient());
    assert!(!FetchError::Encoding.is_transient());
}

#[test]
fn pages_start_every_five_hundred_delegators() {
    assert_eq!(page_offsets(1200), vec![0, 500, 1000]);
    assert_eq!(page_offsets(1), vec![0]);
    assert_eq!(page_offsets(499), vec![0]);
    assert_eq!(page_offsets(500), vec![0]);
    assert_eq!(page_offsets(501), vec![0, 500]);
    assert_eq!(page_offsets(1000), vec![0, 500]);
    assert_eq!(page_offsets(1001), vec![0, 500, 1000]);
    assert_eq!(page_offsets(0), Vec::<u64>::new());
    let many = page_offsets(25_000);
    assert_eq!(many.len(), 50);
    assert_eq!(many[49], 24_500);
}

#[test]
fn pagination_union_collapses_accounts_listed_twice() {
    let offsets = page_offsets(1200);
    assert_eq!(offsets, vec![0, 500, 1000]);
    let pages = vec![
        PageResponse::Delegators(delegators(&["a.near", "b.near", "c.near"])),
        PageResponse::Delegators(delegators(&["c.near", "d.near"])),
        PageResponse::Delegators(delegators(&["e.near", "a.near", "e.near"])),
    ];
    let fetched = get_delegators_by_validator_account_id(&pages).unwrap();
    assert_eq!(fetched, accounts(&["a.near", "b.near", "c.near", "d.near", "e.near"]));
    assert_eq!(fetched.len(), 5);
}

#[test]
fn a_page_of_an_absent_contract_is_empty() {
    let pages = vec![
        PageResponse::Delegators(delegators(&["a.near"])),
        PageResponse::Failed(QueryFailure::NoContractCode),
        PageResponse::Failed(QueryFailure::ContractExecutionError),
        PageResponse::Delegators(Vec::new()),
    ];
    assert_eq!(get_delegators_by_validator_account_id(&pages).unwrap(), accounts(&["a.near"]));
    assert!(delegators_of_page(&PageResponse::Failed(QueryFailure::NoContractCode))
        .unwrap()
        .is_empty());
    assert!(delegators_of_page(&PageResponse::Failed(QueryFailure::ContractExecutionError))
        .unwrap()
        .is_empty());
}

#[test]
fn a_failed_page_fails_the_fetch_with_the_first_error() {
    let pages = vec![
        PageResponse::Delegators(delegators(&["a.near"])),
        PageResponse::Malformed,
        PageResponse::Failed(QueryFailure::Other),
    ];
    assert_eq!(get_delegators_by_validator_account_id(&pages).unwrap_err(), FetchError::Parse);
    let pages = vec![
        PageResponse::Failed(QueryFailure::Other),
        PageResponse::UnexpectedKind,
    ];
    assert_eq!(get_delegators_by_validator_account_id(&pages).unwrap_err(), FetchError::Remote);
    let pages = vec![PageResponse::UnexpectedKind];
    assert_eq!(
        get_delegators_by_validator_account_id(&pages).unwrap_err(),
        FetchError::UnexpectedKind
    );
}

#[test]
fn one_page_gives_its_accounts_or_its_error() {
    let page = delegators_of_page(&PageResponse::Delegators(delegators(&["b", "a", "b"]))).unwrap();
    assert_eq!(page, accounts(&["a", "b"]));
    assert_eq!(delegators_of_page(&PageResponse::Malformed).unwrap_err(), FetchError::Parse);
    assert_eq!(
        delegators_of_page(&PageResponse::UnexpectedKind).unwrap_err(),
        FetchError::UnexpectedKind
    );
    assert_eq!(
        delegators_of_page(&PageResponse::Failed(QueryFailure::Other)).unwrap_err(),
        FetchError::Remote
    );
}

#[test]
fn pools_are_read_from_the_factory_state() {
    let response = RpcQueryResponse {
        kind: QueryResponseKind::ViewState(vec![
            item(b"se\x00\x00\x00\x00", borsh("b.poolv1.near")),
            item(b"se\x01\x00\x00\x00", borsh("a.poolv1.near")),
            item(b"se", borsh("c.poolv1.near")),
            item(b"sv\x00", borsh("not.a.pool")),
            item(b"STATE", borsh("upper.case.key")),
            item(b"s", borsh("short.key")),
            item(b"", borsh("empty.key")),
            item(b"se\x02", borsh("a.poolv1.near")),
        ]),
    };
    let validators = get_factory_pools(&response).unwrap();
    assert_eq!(validators, accounts(&["a.poolv1.near", "b.poolv1.near", "c.poolv1.near"]));
}

#[test]
fn state_values_that_hold_no_string_name_no_pool() {
    let mut trailing = borsh("trailing.near");
    trailing.push(0);
    let mut cut = borsh("cut.near");
    cut.pop();
    let response = RpcQueryResponse {
        kind: QueryResponseKind::ViewState(vec![
            item(b"se1", trailing),
            item(b"se2", cut),
            item(b"se3", vec![1, 0, 0]),
            item(b"se4", Vec::new()),
            item(b"se5", vec![2, 0, 0, 0, 0xff, 0xfe]),
            item(b"se6", vec![0, 0, 0, 0]),
            item(b"se7", borsh("good.near")),
            item(b"se8", borsh("Any Text ü")),
        ]),
    };
    let validators = get_factory_pools(&response).unwrap();
    assert_eq!(validators, accounts(&["", "good.near", "Any Text ü"]));
}

#[test]
fn pools_need_a_response_that_holds_state() {
    assert_eq!(get_factory_pools(&call_result(b"[]")).unwrap_err(), FetchError::UnexpectedKind);
    let other = RpcQueryResponse { kind: QueryResponseKind::Other };
    assert_eq!(get_factory_pools(&other).unwrap_err(), FetchError::UnexpectedKind);
    let empty = RpcQueryResponse { kind: QueryResponseKind::ViewState(Vec::new()) };
    assert!(get_factory_pools(&empty).unwrap().is_empty());
}

#[test]
fn discovery_unites_every_role() {
    let names = |list: &[&str]| list.iter().map(|name| name.to_string()).collect::<Vec<_>>();
    let roles = EpochValidators {
        current_validators: names(&["v1", "v2"]),
        next_validators: names(&["v2", "v3"]),
        current_fishermen: names(&["f1"]),
        next_fishermen: names(&["f2", "f1"]),
        current_proposals: names(&["p1", "v1"]),
        prev_epoch_kickout: names(&["k1"]),
    };
    let found = get_all_validators(&roles);
    assert_eq!(found, accounts(&["f1", "f2", "k1", "p1", "v1", "v2", "v3"]));
    assert_eq!(found.len(), 7);
    let nobody = EpochValidators {
        current_validators: Vec::new(),
        next_validators: Vec::new(),
        current_fishermen: Vec::new(),
        next_fishermen: Vec::new(),
        current_proposals: Vec::new(),
        prev_epoch_kickout: Vec::new(),
    };
    assert!(get_all_validators(&nobody).is_empty());
}

#[test]
fn transient_failures_are_retried_up_to_the_ceiling() {
    let policy = RetryPolicy::standard();
    assert_eq!(policy, RetryPolicy { max_attempts: 20, delay_ms: 500 });
    assert_eq!(
        policy.after_failure(FetchError::Remote, 1),
        RetryDecision::RetryAfter { delay_ms: 500 }
    );
    assert_eq!(
        policy.after_failure(FetchError::Remote, 19),
        RetryDecision::RetryAfter { delay_ms: 500 }
    );
    assert_eq!(policy.after_failure(FetchError::Remote, 20), RetryDecision::GiveUp);
    assert_eq!(policy.after_failure(FetchError::Remote, 255), RetryDecision::GiveUp);
    let mut attempts: u8 = 0;
    let mut waited: u64 = 0;
    loop {
        attempts += 1;
        match policy.after_failure(FetchError::Remote, attempts) {
            RetryDecision::RetryAfter { delay_ms } => waited += delay_ms,
            RetryDecision::GiveUp => break,
        }
    }
    assert_eq!(attempts, 20);
    assert_eq!(waited, 9500);
}

#[test]
fn other_failures_are_not_retried() {
    let policy = RetryPolicy::standard();
    for error in [
        FetchError::Parse,
        FetchError::UnexpectedKind,
        FetchError::InvalidAccountId,
        FetchError::Encoding,
    ] {
        assert_eq!(policy.after_failure(error, 1), RetryDecision::GiveUp);
    }
    let once = RetryPolicy { max_attempts: 1, delay_ms: 10 };
    assert_eq!(once.after_failure(FetchError::Remote, 1), RetryDecision::GiveUp);
    let never = RetryPolicy { max_attempts: 0, delay_ms: 10 };
    assert_eq!(never.after_failure(FetchError::Remote, 0), RetryDecision::GiveUp);
    let thrice = RetryPolicy { max_attempts: 3, delay_ms: 7 };
    assert_eq!(
        thrice.after_failure(FetchError::Remote, 2),
        RetryDecision::RetryAfter { delay_ms: 7 }
    );
}

#[test]
fn an_attempt_ends_in_a_value_a_wait_or_a_failure() {
    let policy = RetryPolicy::standard();
    assert!(matches!(policy.after_attempt(Ok(7u64), 1), Attempt::Done(7)));
    assert!(matches!(policy.after_attempt(Ok("x"), 20), Attempt::Done("x")));
    assert!(matches!(
        policy.after_attempt(Err::<u64, FetchError>(FetchError::Remote), 1),
        Attempt::RetryAfter { delay_ms: 500 }
    ));
    assert!(matches!(
        policy.after_attempt(Err::<u64, FetchError>(FetchError::Remote), 20),
        Attempt::Failed(FetchError::Remote)
    ));
    assert!(matches!(
        policy.after_attempt(Err::<u64, FetchError>(FetchError::Parse), 1),
        Attempt::Failed(FetchError::Parse)
    ));
}

#[test]
fn discovery_finds_an_account_of_any_single_role() {
    let nobody = || EpochValidators {
        current_validators: Vec::new(),
        next_validators: Vec::new(),
        current_fishermen: Vec::new(),
        next_fishermen: Vec::new(),
        current_proposals: Vec::new(),
        prev_epoch_kickout: Vec::new(),
    };
    let one = vec!["only.near".to_string()];
    let mut roles = nobody();
    roles.current_validators = one.clone();
    assert_eq!(get_all_validators(&roles), accounts(&["only.near"]));
    let mut roles = nobody();
    roles.next_validators = one.clone();
    assert_eq!(get_all_validators(&roles), accounts(&["only.near"]));
    let mut roles = nobody();
    roles.current_fishermen = one.clone();
    assert_eq!(get_all_validators(&roles), accounts(&["only.near"]));
    let mut roles = nobody();
    roles.next_fishermen = one.clone();
    assert_eq!(get_all_validators(&roles), accounts(&["only.near"]));
    let mut roles = nobody();
    roles.current_proposals = one.clone();
    assert_eq!(get_all_validators(&roles), accounts(&["only.near"]));
    let mut roles = nobody();
    roles.prev_epoch_kickout = one;
    assert_eq!(get_all_validators(&roles), accounts(&["only.near"]));
}
