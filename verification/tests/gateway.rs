use tickers::extract::ExtractError;
use tickers::extract::SymbolData;
use tickers::extract::TickerRecord;
use tickers::handler::price_response;
use tickers::handler::render_reports;
use tickers::handler::root_page;
use tickers::handler::usage_message;

fn rec(inst_id: &str, open24h: &str, last: &str) -> TickerRecord {
    TickerRecord {
        inst_id: inst_id.to_string(),
        open24h: open24h.to_string(),
        last: last.to_string(),
    }
}

#[test]
fn report_labels_come_from_the_identifier() {
    let snap = vec![rec("BTC-USDT", "100", "110")];
    let d = SymbolData::build(&snap, "BTC-USDT".to_string()).unwrap();
    assert_eq!(d.symbol, "BTC");
    assert_eq!(d.pair, "USDT");
}

#[test]
fn direction_up_when_price_rose() {
    let snap = vec![rec("BTC-USDT", "100", "110")];
    let d = SymbolData::build(&snap, "BTC-USDT".to_string()).unwrap();
    assert_eq!(d.dir, "⬆");
}

#[test]
fn direction_down_when_price_fell() {
    let snap = vec![rec("BTC-USDT", "100", "90")];
    let d = SymbolData::build(&snap, "BTC-USDT".to_string()).unwrap();
    assert_eq!(d.dir, "⬇");
    assert_eq!(d.change, "-10.10");
}

#[test]
fn direction_up_when_price_unchanged() {
    let snap = vec![rec("BTC-USDT", "100", "100")];
    let d = SymbolData::build(&snap, "BTC-USDT".to_string()).unwrap();
    assert_eq!(d.dir, "⬆");
    assert_eq!(d.change, "0.00");
}

#[test]
fn change_uses_the_101_multiplier() {
    // ((110 - 100) / 100) * 101.00 = 10.10, not the 10.00 a plain
    // percentage would give.
    let snap = vec![rec("BTC-USDT", "100", "110")];
    let d = SymbolData::build(&snap, "BTC-USDT".to_string()).unwrap();
    assert_eq!(d.change, "10.10");
}

#[test]
fn change_rounds_to_two_places() {
    // ((3 - 7) / 7) * 101 = -57.714... -> -57.71
    let snap = vec![rec("A-B", "7", "3")];
    let d = SymbolData::build(&snap, "A-B".to_string()).unwrap();
    assert_eq!(d.change, "-57.71");
}

#[test]
fn unknown_identifier_reports_first_record() {
    let snap = vec![rec("ETH-USDT", "100", "105"), rec("BTC-USDT", "200", "100")];
    let d = SymbolData::build(&snap, "FOO-BAR".to_string()).unwrap();
    assert_eq!(d.symbol, "FOO");
    assert_eq!(d.pair, "BAR");
    assert_eq!(d.price, "105");
    assert_eq!(d.change, "5.05");
}

#[test]
fn first_matching_record_wins() {
    let snap = vec![
        rec("ETH-USDT", "1", "1"),
        rec("BTC-USDT", "100", "110"),
        rec("BTC-USDT", "100", "90"),
    ];
    let d = SymbolData::build(&snap, "BTC-USDT".to_string()).unwrap();
    assert_eq!(d.change, "10.10");
}

#[test]
fn zero_open_is_invalid_price_data() {
    let snap = vec![rec("BTC-USDT", "0", "105")];
    let r = SymbolData::build(&snap, "BTC-USDT".to_string());
    assert!(matches!(r, Err(ExtractError::InvalidPriceData)));
}

#[test]
fn zero_open_with_fraction_is_invalid_price_data() {
    let snap = vec![rec("BTC-USDT", "0.00", "105")];
    let r = SymbolData::build(&snap, "BTC-USDT".to_string());
    assert!(matches!(r, Err(ExtractError::InvalidPriceData)));
}

#[test]
fn non_numeric_price_is_invalid_price_data() {
    let snap = vec![rec("BTC-USDT", "100", "fast")];
    let r = SymbolData::build(&snap, "BTC-USDT".to_string());
    assert!(matches!(r, Err(ExtractError::InvalidPriceData)));
}

#[test]
fn empty_snapshot_is_invalid_price_data() {
    let snap: Vec<TickerRecord> = Vec::new();
    let r = SymbolData::build(&snap, "BTC-USDT".to_string());
    assert!(matches!(r, Err(ExtractError::InvalidPriceData)));
}

#[test]
fn identifier_without_separator_is_malformed() {
    let snap = vec![rec("BTC-USDT", "100", "110")];
    let r = SymbolData::build(&snap, "BTCUSDT".to_string());
    assert!(matches!(r, Err(ExtractError::MalformedInstrumentId)));
}

#[test]
fn identifier_with_empty_side_is_malformed() {
    let snap = vec![rec("BTC-USDT", "100", "110")];
    assert!(matches!(
        SymbolData::build(&snap, "BTC-".to_string()),
        Err(ExtractError::MalformedInstrumentId)
    ));
    assert!(matches!(
        SymbolData::build(&snap, "-USDT".to_string()),
        Err(ExtractError::MalformedInstrumentId)
    ));
}

#[test]
fn whitespace_identifier_is_malformed() {
    let snap = vec![rec("BTC-USDT", "100", "110")];
    let r = SymbolData::build(&snap, " ".to_string());
    assert!(matches!(r, Err(ExtractError::MalformedInstrumentId)));
}

#[test]
fn price_keeps_its_canonical_decimal_form() {
    let snap = vec![rec("XCH-USDT", "1", "0.5000")];
    let d = SymbolData::build(&snap, "XCH-USDT".to_string()).unwrap();
    assert_eq!(d.price, "0.5");
    assert_eq!(d.dir, "⬇");
    assert_eq!(d.change, "-50.50");
}

#[test]
fn empty_parameter_gets_usage_help() {
    let (status, body) = price_response("", Err(String::new()));
    assert_eq!(status, 400);
    assert_eq!(body, usage_message());
    assert!(body.starts_with("Please provide one or more instrument_ids."));
}

#[test]
fn empty_comma_entry_fails_as_malformed() {
    let snap = vec![rec("BTC-USDT", "100", "105")];
    let (status, body) = price_response("BTC-USDT,", Ok(snap));
    assert_eq!(status, 500);
    assert_eq!(body, "malformed instrument id: ");
}

#[test]
fn single_instrument_end_to_end() {
    let snap = vec![rec("BTC-USDT", "100", "105")];
    let (status, body) = price_response("BTC-USDT", Ok(snap));
    assert_eq!(status, 200);
    assert_eq!(body, "BTC: ⬆ 5.05% 105 USDT\n");
}

#[test]
fn two_instruments_keep_request_order() {
    // The snapshot lists ETH first; the response must follow the request.
    let snap = vec![rec("ETH-USDT", "10", "10"), rec("BTC-USDT", "100", "105")];
    let (status, body) = price_response("BTC-USDT,ETH-USDT", Ok(snap));
    assert_eq!(status, 200);
    assert_eq!(body, "BTC: ⬆ 5.05% 105 USDT\nETH: ⬆ 0.00% 10 USDT\n");
}

#[test]
fn first_error_aborts_the_response() {
    let snap = vec![rec("BTC-USDT", "100", "105")];
    let (status, body) = render_reports("BTC-USDT,oops,ETH-USDT", &snap);
    assert_eq!(status, 500);
    assert_eq!(body, "malformed instrument id: oops");
}

#[test]
fn upstream_failure_is_a_500_with_its_message() {
    let (status, body) = price_response("BTC-USDT", Err("connect timeout".to_string()));
    assert_eq!(status, 500);
    assert_eq!(body, "connect timeout");
}

#[test]
fn root_page_lists_the_endpoints() {
    let page = root_page();
    assert!(page.starts_with("======= Tickers Simple ======="));
    assert!(page.contains("/price/<inst_id>"));
}

#[test]
fn plus_signed_open_price_is_accepted() {
    let snap = vec![rec("BTC-USDT", "+100", "105")];
    let d = SymbolData::build(&snap, "BTC-USDT".to_string()).unwrap();
    assert_eq!(d.change, "5.05");
}

#[test]
fn bare_point_forms_are_accepted() {
    // ".5" is 0.5 and "5." is 5; ((5 - 0.5) / 0.5) * 101 = 909.
    let snap = vec![rec("BTC-USDT", ".5", "5.")];
    let d = SymbolData::build(&snap, "BTC-USDT".to_string()).unwrap();
    assert_eq!(d.price, "5");
    assert_eq!(d.change, "909.00");
    assert_eq!(d.dir, "⬆");
}

#[test]
fn negative_last_price_keeps_its_sign() {
    let snap = vec![rec("BTC-USDT", "100", "-50")];
    let d = SymbolData::build(&snap, "BTC-USDT".to_string()).unwrap();
    assert_eq!(d.price, "-50");
    assert_eq!(d.dir, "⬇");
    assert_eq!(d.change, "-151.50");
}

#[test]
fn trailing_fraction_zeros_leave_the_price() {
    let snap = vec![rec("BTC-USDT", "100", "105.000")];
    let d = SymbolData::build(&snap, "BTC-USDT".to_string()).unwrap();
    assert_eq!(d.price, "105");
}

#[test]
fn overlong_price_is_invalid_price_data() {
    let snap = vec![rec("BTC-USDT", "100", "1234567890123456")];
    let r = SymbolData::build(&snap, "BTC-USDT".to_string());
    assert!(matches!(r, Err(ExtractError::InvalidPriceData)));
}

#[test]
fn exponent_form_is_not_a_decimal() {
    let snap = vec![rec("BTC-USDT", "100", "1e5")];
    let r = SymbolData::build(&snap, "BTC-USDT".to_string());
    assert!(matches!(r, Err(ExtractError::InvalidPriceData)));
}

#[test]
fn parse_dec_reads_mantissa_and_scale() {
    let d = tickers::decimal::parse_dec("12.34").unwrap();
    assert!(!d.neg);
    assert_eq!(d.mant, 1234);
    assert_eq!(d.scale, 2);
    assert!(tickers::decimal::parse_dec("").is_none());
    assert!(tickers::decimal::parse_dec("-").is_none());
    assert!(tickers::decimal::parse_dec("1.2.3").is_none());
}
