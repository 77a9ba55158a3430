use okx_connector::book::{Orderbook, UpdateError};
use okx_connector::codec::{DecodeError, Decimal, PriceLevel};

/// A level from its price and size in steps of 10^-18.
fn level(price: u128, size: u128) -> PriceLevel {
    PriceLevel { price: Decimal { units: price }, size: Decimal { units: size } }
}

const SNAPSHOT: &str = r#"{"code":"0","msg":"","data":[{"asks":[[41006.8,0.60030921]],"bids":[[41006.3,0.30178210]],"ts":"1621447077008"}]}"#;

const SMALL_SNAPSHOT: &str = r#"{"code":"0","msg":"","data":[{"asks":[["41006.8","0.6"]],"bids":[["41006.3","0.3"]],"ts":"1"}]}"#;

#[test]
fn test_orderbook_from_snapshot() {
    let orderbook = Orderbook::from_snapshot(SNAPSHOT).unwrap();
    assert_eq!(orderbook.asks().len(), 1);
    assert_eq!(orderbook.bids().len(), 1);
    assert_eq!(orderbook.asks()[0], level(41_006_800_000_000_000_000_000, 600_309_210_000_000_000));
    assert_eq!(orderbook.bids()[0], level(41_006_300_000_000_000_000_000, 301_782_100_000_000_000));
}

#[test]
fn test_orderbook_apply_update() {
    let mut orderbook = Orderbook::from_snapshot(SNAPSHOT).unwrap();
    let update = r#"{"asks":[[41007.0,0.20000000]],"bids":[[41005.0,0.10000000]]}"#;
    orderbook.apply_update(update).unwrap();
    assert_eq!(orderbook.asks().len(), 2);
    assert_eq!(orderbook.bids().len(), 2);
    assert_eq!(orderbook.asks()[1], level(41_007_000_000_000_000_000_000, 200_000_000_000_000_000));
    assert_eq!(orderbook.bids()[1], level(41_005_000_000_000_000_000_000, 100_000_000_000_000_000));
}

#[test]
fn test_orderbook_sort_order_book() {
    let orderbook = Orderbook::from_levels(
        &vec![level(41_007_000_000_000_000_000_000, 200_000_000_000_000_000), level(41_006_800_000_000_000_000_000, 600_309_210_000_000_000)],
        &vec![level(41_005_000_000_000_000_000_000, 100_000_000_000_000_000), level(41_006_300_000_000_000_000_000, 301_782_100_000_000_000)],
        0,
    );
    assert_eq!(
        orderbook.asks(),
        &vec![level(41_006_800_000_000_000_000_000, 600_309_210_000_000_000), level(41_007_000_000_000_000_000_000, 200_000_000_000_000_000)]
    );
    assert_eq!(
        orderbook.bids(),
        &vec![level(41_006_300_000_000_000_000_000, 301_782_100_000_000_000), level(41_005_000_000_000_000_000_000, 100_000_000_000_000_000)]
    );
}

#[test]
fn snapshot_keeps_its_revision() {
    let orderbook = Orderbook::from_snapshot(SNAPSHOT).unwrap();
    assert_eq!(orderbook.revision(), 1621447077008);
}

#[test]
fn update_adds_new_levels_on_both_sides() {
    let mut book = Orderbook::from_snapshot(SMALL_SNAPSHOT).unwrap();
    let r = book.apply_update(r#"{"asks":[[41007.0,0.2]],"bids":[[41005.0,0.1]],"ts":2}"#);
    assert_eq!(r, Ok(()));
    assert_eq!(book.asks(), &vec![level(41_006_800_000_000_000_000_000, 600_000_000_000_000_000), level(41_007_000_000_000_000_000_000, 200_000_000_000_000_000)]);
    assert_eq!(book.bids(), &vec![level(41_006_300_000_000_000_000_000, 300_000_000_000_000_000), level(41_005_000_000_000_000_000_000, 100_000_000_000_000_000)]);
    assert_eq!(book.revision(), 2);
}

#[test]
fn zero_size_update_removes_the_level() {
    let mut book = Orderbook::from_snapshot(SMALL_SNAPSHOT).unwrap();
    let r = book.apply_update(r#"{"asks":[[41006.8,0]],"ts":2}"#);
    assert_eq!(r, Ok(()));
    assert!(book.asks().is_empty());
    assert_eq!(book.bids(), &vec![level(41_006_300_000_000_000_000_000, 300_000_000_000_000_000)]);
}

#[test]
fn zero_size_for_an_absent_price_changes_nothing() {
    let mut book = Orderbook::from_snapshot(SMALL_SNAPSHOT).unwrap();
    let r = book.apply_update(r#"{"asks":[["50000","0"]],"bids":[["1","0"]],"ts":"2"}"#);
    assert_eq!(r, Ok(()));
    assert_eq!(book.asks(), &vec![level(41_006_800_000_000_000_000_000, 600_000_000_000_000_000)]);
    assert_eq!(book.bids(), &vec![level(41_006_300_000_000_000_000_000, 300_000_000_000_000_000)]);
    assert_eq!(book.revision(), 2);
}

#[test]
fn older_update_is_stale_and_changes_nothing() {
    let mut book = Orderbook::from_snapshot(SMALL_SNAPSHOT).unwrap();
    let r = book.apply_update(r#"{"asks":[[41007.0,0.2]],"ts":0}"#);
    assert_eq!(r, Err(UpdateError::Stale));
    assert_eq!(book.asks(), &vec![level(41_006_800_000_000_000_000_000, 600_000_000_000_000_000)]);
    assert_eq!(book.bids(), &vec![level(41_006_300_000_000_000_000_000, 300_000_000_000_000_000)]);
    assert_eq!(book.revision(), 1);
}

#[test]
fn reapplied_update_is_stale_then_changes_nothing() {
    let mut book = Orderbook::from_snapshot(SMALL_SNAPSHOT).unwrap();
    let update_at_two = r#"{"asks":[[41006.8,0.6]],"bids":[[41006.3,0.3]],"ts":2}"#;
    assert_eq!(book.apply_update(update_at_two), Ok(()));
    assert_eq!(book.apply_update(update_at_two), Err(UpdateError::Stale));
    let update_at_three = r#"{"asks":[[41006.8,0.6]],"bids":[[41006.3,0.3]],"ts":3}"#;
    assert_eq!(book.apply_update(update_at_three), Ok(()));
    assert_eq!(book.asks(), &vec![level(41_006_800_000_000_000_000_000, 600_000_000_000_000_000)]);
    assert_eq!(book.bids(), &vec![level(41_006_300_000_000_000_000_000, 300_000_000_000_000_000)]);
    assert_eq!(book.revision(), 3);
}

#[test]
fn malformed_number_fails_without_touching_the_book() {
    let mut book = Orderbook::from_snapshot(SMALL_SNAPSHOT).unwrap();
    let r = book.apply_update(r#"{"asks":[["41007.0","0.2"]],"bids":[["abc","0.1"]],"ts":"2"}"#);
    assert_eq!(r, Err(UpdateError::Decode(DecodeError::NumericFormat)));
    assert_eq!(book.asks(), &vec![level(41_006_800_000_000_000_000_000, 600_000_000_000_000_000)]);
    assert_eq!(book.bids(), &vec![level(41_006_300_000_000_000_000_000, 300_000_000_000_000_000)]);
    assert_eq!(book.revision(), 1);
}

#[test]
fn malformed_payload_is_a_decode_error() {
    let mut book = Orderbook::from_snapshot(SMALL_SNAPSHOT).unwrap();
    assert_eq!(book.apply_update("not json"), Err(UpdateError::Decode(DecodeError::Malformed)));
    assert_eq!(book.apply_update(r#"{"asks":"x"}"#), Err(UpdateError::Decode(DecodeError::Malformed)));
    assert_eq!(book.apply_update(r#"{"asks":[["1"]]}"#), Err(UpdateError::Decode(DecodeError::Malformed)));
    assert_eq!(book.apply_update(r#"{"ts":"soon"}"#), Err(UpdateError::Decode(DecodeError::NumericFormat)));
    assert_eq!(book.revision(), 1);
}

#[test]
fn levels_in_one_update_apply_in_order() {
    let mut book = Orderbook::from_snapshot(SMALL_SNAPSHOT).unwrap();
    let r = book.apply_update(r#"{"asks":[["41010","1"],["41008","2"],["41010","0"],["41009","3"],["41008","4"]],"ts":5}"#);
    assert_eq!(r, Ok(()));
    assert_eq!(
        book.asks(),
        &vec![level(41_006_800_000_000_000_000_000, 600_000_000_000_000_000), level(41_008_000_000_000_000_000_000, 4_000_000_000_000_000_000), level(41_009_000_000_000_000_000_000, 3_000_000_000_000_000_000)]
    );
}

#[test]
fn update_without_revision_keeps_the_marker() {
    let mut book = Orderbook::from_snapshot(SMALL_SNAPSHOT).unwrap();
    assert_eq!(book.apply_update(r#"{"bids":[["41006.3","0.5"]]}"#), Ok(()));
    assert_eq!(book.bids(), &vec![level(41_006_300_000_000_000_000_000, 500_000_000_000_000_000)]);
    assert_eq!(book.revision(), 1);
}

#[test]
fn update_numbers_may_carry_an_exponent() {
    let mut book = Orderbook::from_snapshot(SMALL_SNAPSHOT).unwrap();
    let r = book.apply_update(r#"{"asks":[[4.1e4,1e-8]],"ts":2}"#);
    assert_eq!(r, Ok(()));
    assert_eq!(
        book.asks(),
        &vec![level(41_000_000_000_000_000_000_000, 10_000_000_000), level(41_006_800_000_000_000_000_000, 600_000_000_000_000_000)]
    );
}
