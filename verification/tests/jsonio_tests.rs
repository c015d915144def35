use arbitrage::jsonio::{
    parse_balance, parse_book_ticker, parse_depth, parse_json_doc, parse_order_response,
    parse_prices, parse_symbols, JsonDoc,
};
use arbitrage::models::Direction;
use arbitrage::rates::create_exchange_rates;
use arbitrage::stream::{mid_price, same_tickers, stream_url};

const SCALE: u64 = 100_000_000;

fn doc(body: &str) -> JsonDoc {
    parse_json_doc(body).expect("document must parse")
}

fn exchange_info() -> String {
    let btcusdt = "{\"symbol\":\"BTCUSDT\",\"status\":\"TRADING\",\"baseAsset\":\"BTC\",\"quoteAsset\":\"USDT\",\"baseAssetPrecision\":8,\"quoteAssetPrecision\":8,\"isSpotTradingAllowed\":true,\"filters\":[{\"filterType\":\"LOT_SIZE\",\"minQty\":\"0.00001000\",\"maxQty\":\"100.00000000\",\"stepSize\":\"0.00001000\"},{\"filterType\":\"NOTIONAL\",\"minNotional\":\"10.00000000\",\"maxNotional\":\"1000000.00000000\"}]}";
    let btceur = "{\"symbol\":\"BTCEUR\",\"status\":\"TRADING\",\"baseAsset\":\"BTC\",\"quoteAsset\":\"EUR\",\"baseAssetPrecision\":8,\"quoteAssetPrecision\":8,\"isSpotTradingAllowed\":true,\"filters\":[]}";
    let ethusdt = "{\"symbol\":\"ETHUSDT\",\"status\":\"BREAK\",\"baseAsset\":\"ETH\",\"quoteAsset\":\"USDT\",\"baseAssetPrecision\":8,\"quoteAssetPrecision\":8,\"isSpotTradingAllowed\":true,\"filters\":[]}";
    format!("{{\"symbols\":[{},{},{}]}}", btcusdt, btceur, ethusdt)
}

#[test]
fn it_creates_binance_instance() {
    let symbols = parse_symbols(&doc(exchange_info().as_str())).unwrap();
    let prices = parse_prices(
        &doc("[{\"symbol\":\"BTCUSDT\",\"price\":\"25000.00000000\"},{\"symbol\":\"XRPBTC\",\"price\":\"0.00001700\"}]"),
    )
    .unwrap();
    let exchange_rates = create_exchange_rates(&symbols, &prices);
    assert!(symbols.len() > 0);
    assert!(prices.len() > 0);
    assert!(exchange_rates.len() > 0);
}

#[test]
fn admission_filters_status_and_fiat() {
    let symbols = parse_symbols(&doc(exchange_info().as_str())).unwrap();
    // BTCEUR is fiat-excluded, ETHUSDT is not trading.
    assert_eq!(symbols.len(), 1);
    assert_eq!(symbols[0].symbol.as_str(), "BTCUSDT");
    assert_eq!(symbols[0].base_asset.as_str(), "BTC");
    assert_eq!(symbols[0].quote_asset.as_str(), "USDT");
    assert_eq!(symbols[0].min_qty.as_str(), "0.00001000");
    assert_eq!(symbols[0].min_notional.as_str(), "10.00000000");
    assert_eq!(symbols[0].base_asset_precision, 8);
}

#[test]
fn it_extracts_binance_orderbook() {
    let body = "{\"bids\":[[\"24999.00000000\",\"1.00000000\"],[\"25000.00000000\",\"0.50000000\"]],\"asks\":[[\"25002.00000000\",\"0.40000000\"],[\"25001.00000000\",\"2.00000000\"]]}";
    let orderbook_asks = parse_depth(&doc(body), &Direction::Forward).unwrap();
    let orderbook_bids = parse_depth(&doc(body), &Direction::Reverse).unwrap();
    assert!(orderbook_asks[0].0 > orderbook_bids[0].0);
    assert!(orderbook_asks[0].0 < orderbook_asks[1].0);
    assert!(orderbook_bids[0].0 > orderbook_bids[1].0);
}

#[test]
fn depth_values_are_parsed_exactly() {
    let body = "{\"bids\":[[\"100.50000000\",\"0.25000000\"]],\"asks\":[]}";
    let bids = parse_depth(&doc(body), &Direction::Reverse).unwrap();
    assert_eq!(bids, vec![(10_050_000_000, 25_000_000)]);
    assert!(parse_depth(&doc("{\"bids\":[]}"), &Direction::Forward).is_err());
    assert!(parse_json_doc("not json").is_none());
}

#[test]
fn order_responses_expose_status_and_fills() {
    let body = "{\"status\":\"FILLED\",\"executedQty\":\"1.00000000\",\"cummulativeQuoteQty\":\"30000.00000000\"}";
    let (status, base, quote) = parse_order_response(&doc(body)).unwrap();
    assert_eq!(status.as_str(), "FILLED");
    assert_eq!(base, SCALE);
    assert_eq!(quote, 30000 * SCALE);
    assert!(parse_order_response(&doc("{\"executedQty\":\"1\"}")).is_err());
}

#[test]
fn balances_default_to_zero_for_unknown_assets() {
    let body = "{\"balances\":[{\"asset\":\"BTC\",\"free\":\"0.50000000\"},{\"asset\":\"USDT\",\"free\":\"100.00000000\"}]}";
    assert_eq!(parse_balance(&doc(body), "USDT").unwrap(), 100 * SCALE);
    assert_eq!(parse_balance(&doc(body), "BTC").unwrap(), SCALE / 2);
    assert_eq!(parse_balance(&doc(body), "DOGE").unwrap(), 0);
    assert!(parse_balance(&doc("{}"), "BTC").is_err());
}

#[test]
fn book_ticker_messages_update_mid_prices() {
    let msg = "{\"data\":{\"s\":\"btcusdt\",\"a\":\"25001.00000000\",\"b\":\"24999.00000000\"}}";
    let (symbol, ask, bid) = parse_book_ticker(&doc(msg)).unwrap();
    assert_eq!(symbol.as_str(), "BTCUSDT");
    assert_eq!(mid_price(ask, bid), 25000 * SCALE);
    assert!(parse_book_ticker(&doc("{\"data\":{}}")).is_err());
}

#[test]
fn stream_url_joins_lowercased_tickers() {
    let tickers = vec!["BTCUSDT".to_string(), "ETHUSDT".to_string()];
    let url = stream_url(&tickers);
    assert_eq!(
        url.as_str(),
        "wss://stream.binance.com:9443/stream?streams=btcusdt@bookTicker/ethusdt@bookTicker",
    );
    let same = vec!["BTCUSDT".to_string(), "ETHUSDT".to_string()];
    let other = vec!["BTCUSDT".to_string()];
    assert!(same_tickers(&tickers, &same));
    assert!(!same_tickers(&tickers, &other));
}
