use okx_connector::codec::{decode_levels, parse_decimal, parse_revision, DecodeError, Decimal, PriceLevel, UNIT};
use okx_connector::book::Orderbook;
use okx_connector::json::{get_field, text_eq, Json};
use okx_connector::snapshot::load_document;
use okx_connector::session::{next_action, FrameKind, OKXWebSocketClient, SessionAction};

#[test]
fn decimals_are_exact_fixed_point() {
    assert_eq!(parse_decimal("41006.8"), Ok(Decimal { units: 41006 * UNIT + 800_000_000_000_000_000 }));
    assert_eq!(parse_decimal("0.60030921"), Ok(Decimal { units: 600_309_210_000_000_000 }));
    assert_eq!(parse_decimal("0.20000000"), parse_decimal("0.2"));
    assert_eq!(parse_decimal("7"), Ok(Decimal { units: 7 * UNIT }));
    assert_eq!(parse_decimal("5."), Ok(Decimal { units: 5 * UNIT }));
    assert_eq!(parse_decimal(".5"), Ok(Decimal { units: UNIT / 2 }));
    assert_eq!(parse_decimal("0.000000000000000001"), Ok(Decimal { units: 1 }));
    assert_eq!(parse_decimal("0"), Ok(Decimal { units: 0 }));
}

#[test]
fn malformed_decimals_are_refused() {
    for text in [
        "abc", "", ".", "-1", "1.2.3", "1,5", " 1", "0.0000000000000000001", "400000000000000000000",
        "e5", "1e", "1e+", "1e-", "1e5e5", "1e+-5", "1.e", "NaN", "inf", "1e-19", "1e21", "3e40",
    ] {
        assert_eq!(parse_decimal(text), Err(DecodeError::NumericFormat), "{}", text);
    }
    assert_eq!(parse_decimal("340282366920938463464"), Err(DecodeError::NumericFormat));
    assert!(parse_decimal("340282366920938463463").is_ok());
}

#[test]
fn decimals_with_an_exponent() {
    assert_eq!(parse_decimal("1e5"), Ok(Decimal { units: 100_000 * UNIT }));
    assert_eq!(parse_decimal("1E+5"), Ok(Decimal { units: 100_000 * UNIT }));
    assert_eq!(parse_decimal("1e-8"), Ok(Decimal { units: 10_000_000_000 }));
    assert_eq!(parse_decimal("4.1e4"), Ok(Decimal { units: 41_000 * UNIT }));
    assert_eq!(parse_decimal("2.5E-1"), Ok(Decimal { units: 250_000_000_000_000_000 }));
    assert_eq!(parse_decimal("1e-18"), Ok(Decimal { units: 1 }));
    assert_eq!(parse_decimal("1e20"), Ok(Decimal { units: 100_000_000_000_000_000_000 * UNIT }));
    assert_eq!(parse_decimal("0e99999999999999999999999999999999999999999"), Ok(Decimal { units: 0 }));
    assert_eq!(parse_decimal("100000000000000000000000000000e-30"), Ok(Decimal { units: UNIT / 10 }));
    assert_eq!(parse_decimal("1.50000000000000000000000"), Ok(Decimal { units: 1_500_000_000_000_000_000 }));
    assert_eq!(parse_decimal("12e-20"), Err(DecodeError::NumericFormat));
    let raw = vec![("1e5".to_string(), "1".to_string())];
    assert_eq!(
        decode_levels(&raw),
        Ok(vec![PriceLevel { price: Decimal { units: 100_000 * UNIT }, size: Decimal { units: UNIT } }])
    );
}

#[test]
fn revisions_are_plain_integers() {
    assert_eq!(parse_revision("1621447077008"), Ok(1621447077008));
    assert_eq!(parse_revision("18446744073709551615"), Ok(u64::MAX));
    assert_eq!(parse_revision("18446744073709551616"), Err(DecodeError::NumericFormat));
    assert_eq!(parse_revision("1.5"), Err(DecodeError::NumericFormat));
    assert_eq!(parse_revision(""), Err(DecodeError::NumericFormat));
}

#[test]
fn decoding_keeps_order_and_length() {
    let raw = vec![
        ("3".to_string(), "1".to_string()),
        ("1".to_string(), "0".to_string()),
        ("2".to_string(), "0.5".to_string()),
    ];
    let levels = decode_levels(&raw).unwrap();
    assert_eq!(
        levels,
        vec![
            PriceLevel { price: Decimal { units: 3 * UNIT }, size: Decimal { units: UNIT } },
            PriceLevel { price: Decimal { units: UNIT }, size: Decimal { units: 0 } },
            PriceLevel { price: Decimal { units: 2 * UNIT }, size: Decimal { units: UNIT / 2 } },
        ]
    );
    let bad = vec![("1".to_string(), "1".to_string()), ("abc".to_string(), "1".to_string())];
    assert_eq!(decode_levels(&bad), Err(DecodeError::NumericFormat));
}

#[test]
fn json_numbers_keep_their_text() {
    let book = Orderbook::from_snapshot(
        r#"{"data":[{"asks":[[41007.123456789012345678,0.20000000]],"bids":[],"ts":3}]}"#,
    )
    .unwrap();
    assert_eq!(
        book.asks()[0].price,
        Decimal { units: 41007_123_456_789_012_345_678 }
    );
    assert_eq!(book.asks()[0].size, Decimal { units: UNIT / 5 });
}

#[test]
fn documents_built_by_hand_load() {
    let pair = |p: &str, q: &str| Json::Array(vec![Json::Text(p.to_string()), Json::Number(q.to_string())]);
    let element = Json::Object(vec![
        ("asks".to_string(), Json::Array(vec![pair("2", "1"), pair("1", "1")])),
        ("bids".to_string(), Json::Array(vec![])),
        ("ts".to_string(), Json::Number("9".to_string())),
    ]);
    let doc = Json::Object(vec![("data".to_string(), Json::Array(vec![element]))]);
    let book = load_document(&doc).unwrap();
    assert_eq!(book.asks()[0].price, Decimal { units: UNIT });
    assert_eq!(book.asks()[1].price, Decimal { units: 2 * UNIT });
    assert_eq!(book.revision(), 9);
    match &doc {
        Json::Object(entries) => {
            assert!(get_field(entries, "data").is_some());
            assert!(get_field(entries, "code").is_none());
        }
        _ => unreachable!(),
    }
}

#[test]
fn text_equality() {
    assert!(text_eq("asks", "asks"));
    assert!(!text_eq("asks", "ask"));
    assert!(!text_eq("bids", "asks"));
}

#[test]
fn session_actions() {
    assert_eq!(next_action(FrameKind::Text), SessionAction::Forward);
    assert_eq!(next_action(FrameKind::Ping), SessionAction::ReplyPong);
    assert_eq!(next_action(FrameKind::Pong), SessionAction::Ignore);
    assert_eq!(next_action(FrameKind::Binary), SessionAction::Ignore);
    assert_eq!(next_action(FrameKind::Raw), SessionAction::Ignore);
    assert_eq!(next_action(FrameKind::Close), SessionAction::Stop);
    assert_eq!(next_action(FrameKind::Failed), SessionAction::Stop);
}

#[test]
fn websocket_client_keeps_its_url() {
    let client = OKXWebSocketClient::new("wss://ws.okx.com:8443/ws/v5/public");
    assert_eq!(client.url(), "wss://ws.okx.com:8443/ws/v5/public");
}
