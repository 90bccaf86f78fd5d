use pool_delegators::trigger::{trigger_from_parsed, validate_trigger, TriggerError};

const ZEROS: &str = "11111111111111111111111111111111";
const COUNTING: &str = "4wBqpZM9xaSheZzJSMawUKKwhdpChKbZ5eu5ky4Vigw";
const ONES: &str = "JEKNVnkbo3jma5nREBBJCDoXFVeKkD56V3xKrvRmWxFG";

#[test]
fn a_request_with_receipt_and_block_is_accepted() {
    let request =
        validate_trigger(&Some(COUNTING.to_string()), &Some(ONES.to_string())).unwrap();
    assert_eq!(request.receipt_id, (1u8..=32).collect::<Vec<u8>>());
    assert_eq!(request.block_hash, Some(vec![255u8; 32]));
}

#[test]
fn a_request_without_block_is_accepted() {
    let request = validate_trigger(&Some(ZEROS.to_string()), &None).unwrap();
    assert_eq!(request.receipt_id, vec![0u8; 32]);
    assert_eq!(request.block_hash, None);
}

#[test]
fn a_request_without_receipt_is_turned_away() {
    assert_eq!(
        validate_trigger(&None, &Some(ZEROS.to_string())).unwrap_err(),
        TriggerError::MissingReceiptId
    );
    assert_eq!(validate_trigger(&None, &None).unwrap_err(), TriggerError::MissingReceiptId);
    assert_eq!(
        validate_trigger(&None, &Some("bad".to_string())).unwrap_err(),
        TriggerError::MissingReceiptId
    );
}

#[test]
fn a_request_with_a_malformed_receipt_is_turned_away() {
    for receipt in [
        "",
        "abc",
        "0OIl",
        "1111111111111111111111111111111",
        "111111111111111111111111111111111",
        "thX6LZfHDZZKUs92febYZhYRcXddmzfzF2NvTkPNE",
        "not a hash at all, just words",
    ] {
        assert_eq!(
            validate_trigger(&Some(receipt.to_string()), &Some(ZEROS.to_string())).unwrap_err(),
            TriggerError::MalformedReceiptId
        );
    }
}

#[test]
fn a_request_with_a_malformed_block_hash_is_turned_away() {
    for block in ["", "xyz", "1111111111111111111111111111111", "0"] {
        assert_eq!(
            validate_trigger(&Some(ZEROS.to_string()), &Some(block.to_string())).unwrap_err(),
            TriggerError::MalformedBlockHash
        );
    }
}

#[test]
fn requests_are_made_from_parsed_fields() {
    let made = trigger_from_parsed(Some(Some(vec![1, 2])), Some(Some(vec![3]))).unwrap();
    assert_eq!(made.receipt_id, vec![1, 2]);
    assert_eq!(made.block_hash, Some(vec![3]));
    let made = trigger_from_parsed(Some(Some(vec![9])), None).unwrap();
    assert_eq!(made.receipt_id, vec![9]);
    assert_eq!(made.block_hash, None);
    assert_eq!(trigger_from_parsed(None, None).unwrap_err(), TriggerError::MissingReceiptId);
    assert_eq!(
        trigger_from_parsed(Some(None), Some(None)).unwrap_err(),
        TriggerError::MalformedReceiptId
    );
    assert_eq!(
        trigger_from_parsed(Some(Some(vec![1])), Some(None)).unwrap_err(),
        TriggerError::MalformedBlockHash
    );
}
