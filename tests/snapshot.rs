use okx_connector::book::Orderbook;
use okx_connector::codec::{DecodeError, Decimal, PriceLevel};
use okx_connector::snapshot::{parse_order_book, validate_order_book_data, SnapshotError};

/// A level from its price and size in steps of 10^-18.
fn level(price: u128, size: u128) -> PriceLevel {
    PriceLevel { price: Decimal { units: price }, size: Decimal { units: size } }
}

#[test]
fn lib_test_parse_order_book() {
    let data = r#"{"asks":[[41006.8,0.60030921]],"bids":[[41006.3,0.30178210]],"ts":"1621447077008"}"#;
    let orderbook = parse_order_book(data);
    assert!(orderbook.is_ok());
}

#[test]
fn lib_test_validate_order_book_data() {
    let valid_data = r#"{"asks":[[41006.8,0.60030921]],"bids":[[41006.3,0.30178210]],"ts":"1621447077008"}"#;
    let invalid_data = r#"{"ask":[[41006.8,0.60030921]],"bids":[[41006.3,0.30178210]],"ts":"1621447077008"}"#;

    assert!(validate_order_book_data(valid_data).is_ok());
    assert!(validate_order_book_data(invalid_data).is_err());
}

#[test]
fn helpers_test_parse_order_book() {
    let data = r#"{"code":"0","msg":"","data":[{"asks":[["41006.8","0.60030921"]],"bids":[["41006.3","0.30178210"]],"ts":"1621447077008"}]}"#;
    let orderbook = parse_order_book(data);
    assert!(orderbook.is_ok(), "Failed to parse orderbook: {:?}", orderbook.as_ref().err());
    let orderbook = orderbook.unwrap();
    assert_eq!(orderbook.asks().len(), 1);
    assert_eq!(orderbook.bids().len(), 1);
    assert_eq!(orderbook.asks()[0], level(41_006_800_000_000_000_000_000, 600_309_210_000_000_000));
    assert_eq!(orderbook.bids()[0], level(41_006_300_000_000_000_000_000, 301_782_100_000_000_000));
}

#[test]
fn helpers_test_validate_order_book_data() {
    let valid_data = r#"{"asks":[["41006.8","0.60030921"]],"bids":[["41006.3","0.30178210"]],"ts":"1621447077008"}"#;
    let invalid_data = r#"{"ask":[["41006.8","0.60030921"]],"bids":[["41006.3","0.30178210"]],"ts":"1621447077008"}"#;
    assert!(validate_order_book_data(valid_data).is_ok(), "Valid data failed validation");
    assert!(validate_order_book_data(invalid_data).is_err(), "Invalid data passed validation");
}

#[test]
fn snapshot_with_four_field_levels() {
    let data = r#"{"code":"0","msg":"","data":[{"asks":[["50000","1","0","7"]],"bids":[["49999","1","0","6"]],"ts":"1719335318504"}]}"#;
    let book = Orderbook::from_snapshot(data).unwrap();
    assert_eq!(book.asks(), &vec![level(50_000_000_000_000_000_000_000, 1_000_000_000_000_000_000)]);
    assert_eq!(book.bids(), &vec![level(49_999_000_000_000_000_000_000, 1_000_000_000_000_000_000)]);
    assert_eq!(book.revision(), 1719335318504);
}

#[test]
fn snapshot_levels_are_sorted_and_merged() {
    let data = r#"{"data":[{"asks":[["3","1"],["1","1"],["2","1"],["1","5"],["4","0"]],"bids":[["1","1"],["3","1"],["2","1"],["3","0"]],"ts":"7"}]}"#;
    let book = Orderbook::from_snapshot(data).unwrap();
    assert_eq!(
        book.asks(),
        &vec![level(1_000_000_000_000_000_000, 5_000_000_000_000_000_000), level(2_000_000_000_000_000_000, 1_000_000_000_000_000_000), level(3_000_000_000_000_000_000, 1_000_000_000_000_000_000)]
    );
    assert_eq!(book.bids(), &vec![level(2_000_000_000_000_000_000, 1_000_000_000_000_000_000), level(1_000_000_000_000_000_000, 1_000_000_000_000_000_000)]);
}

#[test]
fn empty_data_is_an_empty_payload() {
    let r = Orderbook::from_snapshot(r#"{"code":"0","msg":"","data":[]}"#);
    assert_eq!(r.err(), Some(SnapshotError::EmptyPayload));
}

#[test]
fn envelope_without_data_is_malformed() {
    assert_eq!(
        Orderbook::from_snapshot(r#"{"code":"0","msg":""}"#).err(),
        Some(SnapshotError::MalformedEnvelope)
    );
    assert_eq!(Orderbook::from_snapshot("[1,2]").err(), Some(SnapshotError::MalformedEnvelope));
    assert_eq!(Orderbook::from_snapshot("{").err(), Some(SnapshotError::MalformedEnvelope));
    assert_eq!(
        Orderbook::from_snapshot(r#"{"data":[{"asks":[],"bids":[]}]}"#).err(),
        Some(SnapshotError::MalformedEnvelope)
    );
}

#[test]
fn snapshot_with_bad_number_is_a_decode_error() {
    let r = Orderbook::from_snapshot(r#"{"data":[{"asks":[["abc","1"]],"bids":[],"ts":"1"}]}"#);
    assert_eq!(r.err(), Some(SnapshotError::Decode(DecodeError::NumericFormat)));
    let r = Orderbook::from_snapshot(r#"{"data":[{"asks":[],"bids":[],"ts":"-1"}]}"#);
    assert_eq!(r.err(), Some(SnapshotError::Decode(DecodeError::NumericFormat)));
}

#[test]
fn validation_refuses_non_objects() {
    assert_eq!(validate_order_book_data("[]"), Err(SnapshotError::MalformedEnvelope));
    assert_eq!(validate_order_book_data("nope"), Err(SnapshotError::MalformedEnvelope));
    assert_eq!(validate_order_book_data(r#"{"asks":1,"bids":2}"#), Ok(()));
}
