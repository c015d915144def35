use arbitrage::bellmanford::Edge;
use arbitrage::csvio::{arb_data_from_cycle, arb_header, arb_row_line, parse_arb_row, ArbData};

const SCALE: u64 = 100_000_000;

fn edge(from: &str, to: &str) -> Edge {
    Edge { from: from.to_string(), to: to.to_string(), weight: -1 }
}

#[test]
fn it_stores_an_arb_cycle() {
    let cycle = vec![edge("USDT", "BTC"), edge("BTC", "ETH"), edge("ETH", "USDT")];
    let data = arb_data_from_cycle(&cycle, 1_700_000_000, 110_000_000, 10_000_000);
    let line = arb_row_line(&data).expect("plain fields must encode");
    assert_eq!(
        line.as_str(),
        "1700000000,3,1.10000000,0.10000000,USDT,BTC,ETH,,,,,\n",
    );
    let back = parse_arb_row(line.as_str()).expect("row must parse");
    assert_eq!(back.timestamp, data.timestamp);
    assert_eq!(back.arb_length, data.arb_length);
    assert_eq!(back.arb_rate, data.arb_rate);
    assert_eq!(back.arb_surface, data.arb_surface);
    assert_eq!(back.asset_0.as_deref(), Some("USDT"));
    assert_eq!(back.asset_1.as_deref(), Some("BTC"));
    assert_eq!(back.asset_2.as_deref(), Some("ETH"));
    assert!(back.asset_3.is_none());
}

#[test]
fn header_names_every_column_once() {
    let header = arb_header();
    assert_eq!(
        header,
        "timestamp,arb_length,arb_rate,arb_surface,asset_0,asset_1,asset_2,asset_3,asset_4,asset_5,asset_6,asset_7\n",
    );
    assert_eq!(header.matches("timestamp").count(), 1);
    assert_eq!(header.split(',').count(), 12);
}

#[test]
fn cycle_assets_are_distinct_and_ordered() {
    let cycle = vec![edge("A", "B"), edge("B", "C"), edge("C", "A")];
    let data = arb_data_from_cycle(&cycle, 1, SCALE, 0);
    assert_eq!(data.asset_0.as_deref(), Some("A"));
    assert_eq!(data.asset_1.as_deref(), Some("B"));
    assert_eq!(data.asset_2.as_deref(), Some("C"));
    assert!(data.asset_3.is_none());
}

#[test]
fn negative_surface_rates_round_trip() {
    let data = ArbData {
        timestamp: 42,
        arb_length: 3,
        arb_rate: 99_000_000,
        arb_surface: -1_000_000,
        asset_0: Some("BTC".to_string()),
        asset_1: None,
        asset_2: None,
        asset_3: None,
        asset_4: None,
        asset_5: None,
        asset_6: None,
        asset_7: None,
    };
    let line = arb_row_line(&data).unwrap();
    assert_eq!(line.as_str(), "42,3,0.99000000,-0.01000000,BTC,,,,,,,\n");
    let back = parse_arb_row(line.as_str()).unwrap();
    assert_eq!(back.arb_surface, -1_000_000);
    assert_eq!(back.arb_rate, 99_000_000);
}
