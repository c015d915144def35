use arbitrage::executor::{
    build_market_order_query, clamp_to_balance, execution_preconditions, size_leg_quantity,
    thread_fill,
};
use arbitrage::models::{Direction, Mode, SymbolInfo};
use arbitrage::signing::signed_query;

const SCALE: u64 = 100_000_000;

fn fx(v: f64) -> u64 {
    (v * SCALE as f64).round() as u64
}

#[test]
fn executor_threads_quote_then_base() {
    // Two-leg mock: leg one fills (FILLED, base 1.0, quote 30000) Forward,
    // leg two fills (FILLED, base 0.02, quote 600) Reverse.  The second
    // leg's input must be leg one's quote amount.
    let leg1 = thread_fill(&Direction::Forward, "FILLED", fx(1.0), fx(30000.0));
    assert_eq!(leg1, Some(fx(30000.0)));
    let amount_in_leg2 = leg1.unwrap();
    assert_eq!(amount_in_leg2, fx(30000.0));
    let leg2 = thread_fill(&Direction::Reverse, "FILLED", fx(0.02), fx(600.0));
    assert_eq!(leg2, Some(fx(0.02)));
}

#[test]
fn unfilled_or_empty_fills_are_fatal() {
    assert_eq!(thread_fill(&Direction::Forward, "PARTIALLY_FILLED", fx(1.0), fx(30000.0)), None);
    assert_eq!(thread_fill(&Direction::Forward, "FILLED", 0, fx(30000.0)), None);
}

#[test]
fn preconditions_gate_mode_and_lengths() {
    let symbols = vec!["A".to_string(), "B".to_string(), "C".to_string()];
    let directions = vec![Direction::Forward, Direction::Reverse, Direction::Forward];
    assert!(execution_preconditions(&Mode::Searcher(true, true), &symbols, &directions));
    assert!(!execution_preconditions(&Mode::Searcher(true, false), &symbols, &directions));
    let two = vec!["A".to_string(), "B".to_string()];
    let two_dirs = vec![Direction::Forward, Direction::Reverse];
    assert!(!execution_preconditions(&Mode::Listener(false, true), &two, &two_dirs));
    let mismatched = vec![Direction::Forward];
    assert!(!execution_preconditions(&Mode::Listener(false, true), &symbols, &mismatched));
}

#[test]
fn balance_clamps_the_leg_input() {
    assert_eq!(clamp_to_balance(fx(10.0), 0), None);
    assert_eq!(clamp_to_balance(fx(10.0), fx(4.0)), Some(fx(4.0)));
    assert_eq!(clamp_to_balance(fx(10.0), fx(40.0)), Some(fx(10.0)));
}

#[test]
fn sizing_falls_back_to_the_raw_quantity() {
    let info = SymbolInfo {
        symbol: "BTCUSDT".to_string(),
        base_asset: "BTC".to_string(),
        quote_asset: "USDT".to_string(),
        base_asset_precision: 5,
        quote_asset_precision: 8,
        min_qty: "0.00100000".to_string(),
        max_qty: "100.00000000".to_string(),
        min_notional: "10.00000000".to_string(),
        max_notional: "1000000.00000000".to_string(),
        step_size: "0.00100000".to_string(),
    };
    let (q, err) = size_leg_quantity(&info, fx(0.0123456), fx(25000.0), &Direction::Forward);
    assert_eq!(q, fx(0.012));
    assert!(err.is_none());
    // Over the maximum: normalization fails, the raw quantity is kept.
    let (q, err) = size_leg_quantity(&info, fx(500.0), fx(25000.0), &Direction::Forward);
    assert_eq!(q, fx(500.0));
    assert!(err.is_some());
}

#[test]
fn order_query_names_the_right_amount_field() {
    let fwd = build_market_order_query("BTCUSDT", &Direction::Forward, fx(0.012), 1700000000123);
    assert_eq!(
        fwd.as_str(),
        "symbol=BTCUSDT&side=SELL&type=MARKET&quantity=0.01200000&timestamp=1700000000123",
    );
    let rev = build_market_order_query("BTCUSDT", &Direction::Reverse, fx(60.0), 1700000000123);
    assert_eq!(
        rev.as_str(),
        "symbol=BTCUSDT&side=BUY&type=MARKET&quoteOrderQty=60.00000000&timestamp=1700000000123",
    );
}

#[test]
fn signed_query_appends_a_hex_signature() {
    let q = "symbol=BTCUSDT&side=BUY&type=MARKET&quoteOrderQty=60.00000000&timestamp=1";
    let signed = signed_query(q, "secret");
    assert!(signed.starts_with(q));
    let rest = &signed[q.len()..];
    assert!(rest.starts_with("&signature="));
    let sig = &rest["&signature=".len()..];
    assert_eq!(sig.len(), 64);
    assert!(sig.chars().all(|c| c.is_ascii_hexdigit() && !c.is_ascii_uppercase()));
    // Deterministic: the same query and secret sign identically.
    assert_eq!(signed, signed_query(q, "secret"));
    assert_ne!(signed, signed_query(q, "other"));
}
