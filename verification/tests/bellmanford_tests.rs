use arbitrage::bellmanford::BellmanFord;

const SCALE: u64 = 100_000_000;

fn fx(v: f64) -> u64 {
    (v * SCALE as f64).round() as u64
}

fn get_test_rates_fx() -> Vec<(String, String, u64)> {
    vec![
        ("USD".to_string(), "EUR".to_string(), fx(0.9)),
        ("EUR".to_string(), "USD".to_string(), fx(1.21)),
        ("USD".to_string(), "GBP".to_string(), fx(0.75)),
        ("GBP".to_string(), "USD".to_string(), fx(1.33)),
        ("GBP".to_string(), "EUR".to_string(), fx(1.197)),
    ]
}

#[test]
fn it_detects_arbitrage_negative_cycle() {
    let test_exchange_rates = get_test_rates_fx();
    let bf = BellmanFord::new(&test_exchange_rates);
    match bf.find_negative_cycle() {
        Some(cycle) => {
            let mut stake = 1000.0f64;
            for edge in &cycle {
                println!("{} to {}: {}", edge.from, edge.to, stake);
                stake *= 10f64.powf(-(edge.weight as f64) / SCALE as f64);
            }
            println!("Final stake: {}", stake);
            assert!(stake > 1000.0);
        },
        None => panic!("No arbitrage opportunity"),
    }
}

#[test]
fn it_detects_all_arbitrage_negative_cycles() {
    let test_exchange_rates = get_test_rates_fx();
    let bf = BellmanFord::new(&test_exchange_rates);
    let cycles = bf.find_all_negative_cycles();
    assert!(cycles.len() > 0);
    assert!(cycles[0].len() > 0);
}

#[test]
fn it_runs_bellman_ford_single_and_multi() {
    let rates = get_test_rates_fx();
    let bf = BellmanFord::new(&rates);
    let cycle = bf.find_negative_cycle();
    let cycles = bf.find_all_negative_cycles();
    assert!(cycle.is_some());
    assert!(cycles.len() > 0);
}

#[test]
fn found_cycles_are_closed_long_and_negative() {
    let rates = get_test_rates_fx();
    let bf = BellmanFord::new(&rates);
    let cycle = bf.find_negative_cycle().expect("expected a cycle");
    assert!(cycle.len() >= 3);
    for i in 0..cycle.len() - 1 {
        assert_eq!(cycle[i].to, cycle[i + 1].from);
    }
    assert_eq!(cycle[cycle.len() - 1].to, cycle[0].from);
    let sum: i128 = cycle.iter().map(|e| e.weight as i128).sum();
    assert!(sum < 0);
}

#[test]
fn no_opportunity_returns_none() {
    let rates: Vec<(String, String, u64)> = vec![
        ("A".to_string(), "B".to_string(), fx(1.0)),
        ("B".to_string(), "A".to_string(), fx(1.0)),
        ("A".to_string(), "C".to_string(), fx(2.0)),
        ("C".to_string(), "A".to_string(), fx(0.5)),
    ];
    let bf = BellmanFord::new(&rates);
    assert!(bf.find_negative_cycle().is_none());
}

#[test]
fn two_edge_reciprocation_is_discarded() {
    let rates: Vec<(String, String, u64)> = vec![
        ("X".to_string(), "Y".to_string(), fx(2.0)),
        ("Y".to_string(), "X".to_string(), fx(0.5001)),
    ];
    let bf = BellmanFord::new(&rates);
    assert!(bf.find_negative_cycle().is_none());
    assert_eq!(bf.find_all_negative_cycles().len(), 0);
}

#[test]
fn vertices_are_indexed_in_first_seen_order() {
    let rates = get_test_rates_fx();
    let bf = BellmanFord::new(&rates);
    let names: Vec<&str> = bf.currencies.iter().map(|s| s.as_str()).collect();
    assert_eq!(names, vec!["USD", "EUR", "GBP"]);
    assert_eq!(bf.edges.len(), rates.len());
}
