use arbitrage::bellmanford::Edge;
use arbitrage::depth::{
    calculate_arbitrage, calculate_arbitrage_surface_rate, calculate_weighted_average_price,
    plan_cycle_legs, starting_budget, validate_arbitrage_cycle,
};
use arbitrage::models::{Direction, SymbolInfo, USD_BUDGET};

const SCALE: u64 = 100_000_000;

fn fx(v: f64) -> u64 {
    (v * SCALE as f64).round() as u64
}

fn info(symbol: &str, base: &str, quote: &str) -> SymbolInfo {
    SymbolInfo {
        symbol: symbol.to_string(),
        base_asset: base.to_string(),
        quote_asset: quote.to_string(),
        base_asset_precision: 8,
        quote_asset_precision: 8,
        min_qty: "0.00000001".to_string(),
        max_qty: "100000.00000000".to_string(),
        min_notional: "0.00000001".to_string(),
        max_notional: "100000000.00000000".to_string(),
        step_size: "0.00000001".to_string(),
    }
}

#[test]
fn weighted_walk_forward_consumes_asks() {
    // Asks (100, 1), (101, 1), (102, 5); Forward; budget 2 base units.
    let asks: Vec<(u64, u64)> = vec![(fx(100.0), fx(1.0)), (fx(101.0), fx(1.0)), (fx(102.0), fx(5.0))];
    let (wp, cost, qty) =
        calculate_weighted_average_price(&asks, fx(2.0), &Direction::Forward).unwrap();
    assert_eq!(cost, fx(2.0));
    assert_eq!(qty, fx(201.0));
    assert_eq!(wp, fx(100.5));
}

#[test]
fn weighted_walk_reverse_partial_fill() {
    // Bids (100, 0.5), (99, 10); Reverse; budget 60 quote units.
    let bids: Vec<(u64, u64)> = vec![(fx(100.0), fx(0.5)), (fx(99.0), fx(10.0))];
    let (wp, cost, qty) =
        calculate_weighted_average_price(&bids, fx(60.0), &Direction::Reverse).unwrap();
    assert_eq!(cost, fx(60.0));
    // 0.5 base from the first level, then 10 / 99 base from the residual.
    let expected_qty = fx(0.5) + (10u64 * SCALE as u64) * SCALE / fx(99.0);
    assert_eq!(qty, expected_qty);
    assert_eq!(qty, 60_101_010);
    assert!(wp > 0);
}

#[test]
fn it_calculates_weighted_price_metrics() {
    let orderbook: Vec<(u64, u64)> = vec![(fx(30000.0), fx(0.002)), (fx(29999.0), fx(1.0))];
    let budget = fx(50.0);
    let direction = Direction::Reverse;
    let result = calculate_weighted_average_price(&orderbook, budget, &direction);
    match result {
        Some((weighted_average_price, total_cost, total_quantity)) => {
            assert!(weighted_average_price > 0);
            assert!(total_cost > 0);
            assert!(total_quantity > 0);
        },
        None => panic!("No weighted average price metrics"),
    }
}

#[test]
fn zero_quantity_walk_yields_nothing() {
    let empty: Vec<(u64, u64)> = vec![];
    assert!(calculate_weighted_average_price(&empty, fx(10.0), &Direction::Forward).is_none());
    let zeros: Vec<(u64, u64)> = vec![(fx(100.0), 0)];
    assert!(calculate_weighted_average_price(&zeros, fx(10.0), &Direction::Forward).is_none());
}

#[test]
fn forward_walk_improves_with_higher_ask_prices() {
    let base: Vec<(u64, u64)> = vec![(fx(100.0), fx(1.0)), (fx(101.0), fx(2.0))];
    let better: Vec<(u64, u64)> = vec![(fx(100.5), fx(1.0)), (fx(102.0), fx(2.0))];
    let (wp0, _, q0) =
        calculate_weighted_average_price(&base, fx(2.0), &Direction::Forward).unwrap();
    let (wp1, _, q1) =
        calculate_weighted_average_price(&better, fx(2.0), &Direction::Forward).unwrap();
    assert!(wp1 >= wp0);
    assert!(q1 >= q0);
}

#[test]
fn reverse_walk_buys_more_at_lower_bid_prices() {
    let base: Vec<(u64, u64)> = vec![(fx(100.0), fx(0.5)), (fx(99.0), fx(10.0))];
    let better: Vec<(u64, u64)> = vec![(fx(99.5), fx(0.5)), (fx(98.0), fx(10.0))];
    let (_, _, q0) =
        calculate_weighted_average_price(&base, fx(60.0), &Direction::Reverse).unwrap();
    let (_, _, q1) =
        calculate_weighted_average_price(&better, fx(60.0), &Direction::Reverse).unwrap();
    assert!(q1 >= q0);
}

#[test]
fn starting_budget_uses_stable_or_usdt_price() {
    let prices: Vec<(String, u64)> = vec![("BTCUSDT".to_string(), fx(25000.0))];
    assert_eq!(starting_budget("USDT", &prices), Some(USD_BUDGET));
    assert_eq!(starting_budget("BTC", &prices), Some(USD_BUDGET * SCALE / fx(25000.0)));
    assert_eq!(starting_budget("DOGE", &prices), None);
}

#[test]
fn leg_plan_prefers_reversed_symbol() {
    let registry = vec![info("BTCUSDT", "BTC", "USDT")];
    let cycle = vec![
        Edge { from: "USDT".to_string(), to: "BTC".to_string(), weight: 0 },
        Edge { from: "BTC".to_string(), to: "USDT".to_string(), weight: 0 },
    ];
    let (symbols, directions) = plan_cycle_legs(&cycle, &registry);
    assert_eq!(symbols[0].as_str(), "BTCUSDT");
    assert_eq!(directions[0], Direction::Reverse);
    assert_eq!(symbols[1].as_str(), "BTCUSDT");
    assert_eq!(directions[1], Direction::Forward);
}

#[test]
fn it_validates_arbitrage_cycle() {
    // USDT -> BTC -> ETH -> USDT with books deep enough for the budget.
    let registry = vec![
        info("BTCUSDT", "BTC", "USDT"),
        info("ETHBTC", "ETH", "BTC"),
        info("ETHUSDT", "ETH", "USDT"),
    ];
    let prices: Vec<(String, u64)> = vec![
        ("BTCUSDT".to_string(), fx(25000.0)),
        ("ETHBTC".to_string(), fx(0.08)),
        ("ETHUSDT".to_string(), fx(2000.0)),
    ];
    let cycle = vec![
        Edge { from: "USDT".to_string(), to: "BTC".to_string(), weight: 0 },
        Edge { from: "BTC".to_string(), to: "ETH".to_string(), weight: 0 },
        Edge { from: "ETH".to_string(), to: "USDT".to_string(), weight: 0 },
    ];
    // Leg 1: buy BTC with USDT from BTCUSDT bids (Reverse).
    // Leg 2: buy ETH with BTC from ETHBTC bids (Reverse).
    // Leg 3: sell ETH for USDT into ETHUSDT asks (Forward).
    let books: Vec<Vec<(u64, u64)>> = vec![
        vec![(fx(25000.0), fx(1.0))],
        vec![(fx(0.08), fx(100.0))],
        vec![(fx(2100.0), fx(100.0))],
    ];
    let result = validate_arbitrage_cycle(&cycle, &registry, &prices, &books);
    match result {
        Some((real_rate, symbols, directions, budget)) => {
            assert!(real_rate > 0);
            assert!(symbols.len() > 0);
            assert!(directions.len() > 0);
            assert!(budget > 0);
            assert_eq!(symbols.len(), 3);
            assert_eq!(directions[0], Direction::Reverse);
            assert_eq!(directions[2], Direction::Forward);
        },
        None => panic!("No real arbitrage opportunity"),
    }
}

#[test]
fn validator_rejects_unheld_or_empty_cycles() {
    let registry: Vec<SymbolInfo> = vec![];
    let prices: Vec<(String, u64)> = vec![];
    let empty: Vec<Edge> = vec![];
    let no_books: Vec<Vec<(u64, u64)>> = vec![];
    assert!(validate_arbitrage_cycle(&empty, &registry, &prices, &no_books).is_none());
    let cycle = vec![Edge { from: "DOGE".to_string(), to: "BTC".to_string(), weight: 0 }];
    let one_book: Vec<Vec<(u64, u64)>> = vec![vec![]];
    assert!(validate_arbitrage_cycle(&cycle, &registry, &prices, &one_book).is_none());
}

#[test]
fn real_rate_compounds_each_leg() {
    // One Forward leg at flat price 2.0: rate should be 2.0.
    let books: Vec<Vec<(u64, u64)>> = vec![vec![(fx(2.0), fx(10.0))]];
    let dirs = vec![Direction::Forward];
    let rate = calculate_arbitrage(&books, &dirs, fx(1.0)).unwrap();
    assert_eq!(rate, fx(2.0));
}

#[test]
fn surface_rate_of_balanced_pair_is_zero() {
    // Weights that sum to zero give surface rate exactly zero.
    let cycle = vec![
        Edge { from: "A".to_string(), to: "B".to_string(), weight: 100 },
        Edge { from: "B".to_string(), to: "A".to_string(), weight: -100 },
    ];
    assert_eq!(calculate_arbitrage_surface_rate(&cycle), Some(0));
}

#[test]
fn surface_rate_matches_rate_product() {
    // One edge of weight -log10(1.01); surface approximately 0.01.
    let w = arbitrage::logfp::neg_log10_fp(fx(1.01));
    let cycle = vec![Edge { from: "A".to_string(), to: "B".to_string(), weight: w }];
    let s = calculate_arbitrage_surface_rate(&cycle).unwrap();
    let expected = fx(0.01) as i64;
    assert!((s - expected).abs() < 10_000, "surface {} vs {}", s, expected);
}
