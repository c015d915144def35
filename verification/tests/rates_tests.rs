use arbitrage::models::SymbolInfo;
use arbitrage::rates::{create_exchange_rates, lookup_price};

const SCALE: u64 = 100_000_000;

fn info(symbol: &str, base: &str, quote: &str) -> SymbolInfo {
    SymbolInfo {
        symbol: symbol.to_string(),
        base_asset: base.to_string(),
        quote_asset: quote.to_string(),
        base_asset_precision: 8,
        quote_asset_precision: 8,
        min_qty: "0".to_string(),
        max_qty: "0".to_string(),
        min_notional: "0".to_string(),
        max_notional: "0".to_string(),
        step_size: "0".to_string(),
    }
}

#[test]
fn builder_emits_both_directions_per_symbol() {
    let symbols = vec![info("BTCUSDT", "BTC", "USDT"), info("ETHBTC", "ETH", "BTC")];
    let prices: Vec<(String, u64)> = vec![
        ("BTCUSDT".to_string(), 25000 * SCALE),
        ("ETHBTC".to_string(), 8_000_000),
    ];
    let rates = create_exchange_rates(&symbols, &prices);
    assert_eq!(rates.len(), 4);
    assert_eq!(rates[0].0.as_str(), "BTC");
    assert_eq!(rates[0].1.as_str(), "USDT");
    assert_eq!(rates[0].2, 25000 * SCALE);
    assert_eq!(rates[1].0.as_str(), "USDT");
    assert_eq!(rates[1].1.as_str(), "BTC");
    // The reverse rate is the truncated reciprocal: SCALE^2 / price.
    assert_eq!(rates[1].2, SCALE * SCALE / (25000 * SCALE));
    // Product along the back-edge pair is one, within one part in the price.
    for pair in rates.chunks(2) {
        let p = pair[0].2 as u128;
        let r = pair[1].2 as u128;
        let product = p * r;
        let one = (SCALE as u128) * (SCALE as u128);
        assert!(product <= one);
        assert!(product > one - p);
    }
}

#[test]
fn symbols_without_prices_emit_nothing() {
    let symbols = vec![info("BTCUSDT", "BTC", "USDT"), info("ETHBTC", "ETH", "BTC")];
    let prices: Vec<(String, u64)> = vec![("ETHBTC".to_string(), 8_000_000)];
    let rates = create_exchange_rates(&symbols, &prices);
    assert_eq!(rates.len(), 2);
    assert_eq!(rates[0].0.as_str(), "ETH");
}

#[test]
fn zero_prices_emit_nothing() {
    let symbols = vec![info("BTCUSDT", "BTC", "USDT")];
    let prices: Vec<(String, u64)> = vec![("BTCUSDT".to_string(), 0)];
    assert_eq!(create_exchange_rates(&symbols, &prices).len(), 0);
}

#[test]
fn duplicate_symbols_take_the_last_price() {
    let prices: Vec<(String, u64)> = vec![
        ("BTCUSDT".to_string(), 100 * SCALE),
        ("BTCUSDT".to_string(), 200 * SCALE),
    ];
    assert_eq!(lookup_price(&prices, "BTCUSDT"), Some(200 * SCALE));
    let symbols = vec![info("BTCUSDT", "BTC", "USDT")];
    let rates = create_exchange_rates(&symbols, &prices);
    assert_eq!(rates[0].2, 200 * SCALE);
}
