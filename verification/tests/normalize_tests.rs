use arbitrage::models::{Direction, QuantityError, SymbolInfo};
use arbitrage::normalize::validate_quantity;

const SCALE: u64 = 100_000_000;

fn fx(v: f64) -> u64 {
    (v * SCALE as f64).round() as u64
}

fn btc_info() -> SymbolInfo {
    SymbolInfo {
        symbol: "BTCUSDT".to_string(),
        base_asset: "BTC".to_string(),
        quote_asset: "USDT".to_string(),
        base_asset_precision: 5,
        quote_asset_precision: 8,
        min_qty: "0.00100000".to_string(),
        max_qty: "100.00000000".to_string(),
        min_notional: "10.00000000".to_string(),
        max_notional: "1000000.00000000".to_string(),
        step_size: "0.00100000".to_string(),
    }
}

#[test]
fn forward_quantity_is_rounded_and_step_aligned() {
    let info = btc_info();
    // 0.0123456 rounds to 5 places (0.01235), then aligns to step 0.001.
    let q = validate_quantity(&info, fx(0.0123456), fx(25000.0), &Direction::Forward).unwrap();
    assert_eq!(q, fx(0.012));
    assert_eq!(q % fx(0.001), 0);
}

#[test]
fn normalization_is_idempotent_on_success() {
    let info = btc_info();
    let q = validate_quantity(&info, fx(0.0123456), fx(25000.0), &Direction::Forward).unwrap();
    let q2 = validate_quantity(&info, q, fx(25000.0), &Direction::Forward).unwrap();
    assert_eq!(q, q2);
    // Reverse has no step alignment and is idempotent as well.
    let r = validate_quantity(&info, fx(60.123), fx(25000.0), &Direction::Reverse).unwrap();
    let r2 = validate_quantity(&info, r, fx(25000.0), &Direction::Reverse).unwrap();
    assert_eq!(r, r2);
}

#[test]
fn zero_effective_quantity_is_rejected() {
    let info = btc_info();
    let e = validate_quantity(&info, fx(0.0000001), fx(25000.0), &Direction::Forward).unwrap_err();
    assert_eq!(e, QuantityError::ZeroQuantity);
}

#[test]
fn forward_lot_bounds_are_enforced() {
    let mut info = btc_info();
    info.min_qty = "0.01000000".to_string();
    let e = validate_quantity(&info, fx(0.002), fx(25000.0), &Direction::Forward).unwrap_err();
    assert_eq!(e, QuantityError::BelowMinQty);
    let e = validate_quantity(&info, fx(200.0), fx(25000.0), &Direction::Forward).unwrap_err();
    assert_eq!(e, QuantityError::AboveMaxQty);
}

#[test]
fn forward_notional_bounds_are_enforced() {
    let info = btc_info();
    // 0.002 BTC at 25.0 is 0.05 quote units, under the 10.0 minimum.
    let e = validate_quantity(&info, fx(0.002), fx(25.0), &Direction::Forward).unwrap_err();
    assert_eq!(e, QuantityError::BelowMinNotional);
    // 90 BTC at 25000.0 is 2.25 million, over the 1 million maximum.
    let e = validate_quantity(&info, fx(90.0), fx(25000.0), &Direction::Forward).unwrap_err();
    assert_eq!(e, QuantityError::AboveMaxNotional);
}

#[test]
fn reverse_checks_notional_directly() {
    let info = btc_info();
    let e = validate_quantity(&info, fx(5.0), fx(25000.0), &Direction::Reverse).unwrap_err();
    assert_eq!(e, QuantityError::BelowMinNotional);
    let q = validate_quantity(&info, fx(60.0), fx(25000.0), &Direction::Reverse).unwrap();
    assert_eq!(q, fx(60.0));
    let e = validate_quantity(&info, fx(2000000.0), fx(25000.0), &Direction::Reverse).unwrap_err();
    assert_eq!(e, QuantityError::AboveMaxNotional);
}

#[test]
fn malformed_filters_are_named() {
    let mut info = btc_info();
    info.min_qty = "abc".to_string();
    let e = validate_quantity(&info, fx(1.0), fx(1.0), &Direction::Forward).unwrap_err();
    assert_eq!(e, QuantityError::InvalidMinQty);

    let mut info = btc_info();
    info.max_qty = "".to_string();
    let e = validate_quantity(&info, fx(1.0), fx(1.0), &Direction::Forward).unwrap_err();
    assert_eq!(e, QuantityError::InvalidMaxQty);

    let mut info = btc_info();
    info.step_size = "1.2.3".to_string();
    let e = validate_quantity(&info, fx(1.0), fx(1.0), &Direction::Forward).unwrap_err();
    assert_eq!(e, QuantityError::InvalidStepSize);

    let mut info = btc_info();
    info.min_notional = "x".to_string();
    let e = validate_quantity(&info, fx(1.0), fx(25000.0), &Direction::Forward).unwrap_err();
    assert_eq!(e, QuantityError::InvalidMinNotional);

    let mut info = btc_info();
    info.max_notional = "-".to_string();
    let e = validate_quantity(&info, fx(1.0), fx(25000.0), &Direction::Forward).unwrap_err();
    assert_eq!(e, QuantityError::InvalidMaxNotional);
}

#[test]
fn zero_step_size_skips_alignment() {
    let mut info = btc_info();
    info.step_size = "0.00000000".to_string();
    let q = validate_quantity(&info, fx(0.01235), fx(25000.0), &Direction::Forward).unwrap();
    assert_eq!(q, fx(0.01235));
}
