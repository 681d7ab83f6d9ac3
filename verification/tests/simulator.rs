use cex_zkp::decimal::Decimal;
use cex_zkp::simulator::{
    is_aggressive, live_anchor, max_order_units, order_amount, order_price, profile_config, quote_offset_bps,
    reset_simulator, set_simulator_profile, simulated_pairs, simulator_status, start_simulator, stop_simulator,
    ticker_symbol_to_pair, worker_action, keep_warming_up, pair_anchor, ProfileRequest, StartSimulatorRequest, WorkerAction,
};
use cex_zkp::state::{SimulatorProfile, SimulatorState};

fn dec(mantissa: i64, scale: u32) -> Decimal {
    Decimal::new(mantissa, scale)
}

#[test]
fn profiles_have_their_pace_and_size() {
    let n = profile_config(SimulatorProfile::Normal);
    assert_eq!((n.interval_ms, n.orders_per_pair_per_tick, n.aggression_permille), (550, 3, 450));
    assert_eq!(n.amount_max, dec(800, 4));
    let h = profile_config(SimulatorProfile::Hyper);
    assert_eq!((h.interval_ms, h.orders_per_pair_per_tick, h.aggression_permille), (70, 28, 800));
    assert_eq!(h.amount_max, dec(5000, 4));
    assert_eq!(profile_config(SimulatorProfile::Fast).interval_ms, 250);
    assert_eq!(profile_config(SimulatorProfile::Turbo).orders_per_pair_per_tick, 16);
}

#[test]
fn ticker_symbols_map_to_pairs() {
    assert_eq!(ticker_symbol_to_pair("BTCUSDT"), Some("BTC_USDT"));
    assert_eq!(ticker_symbol_to_pair("ETHUSDT"), Some("ETH_USDT"));
    assert_eq!(ticker_symbol_to_pair("SOLUSDT"), Some("SOL_USDT"));
    assert_eq!(ticker_symbol_to_pair("BNBUSDT"), Some("BNB_USDT"));
    assert_eq!(ticker_symbol_to_pair("btcusdt"), None);
    assert_eq!(ticker_symbol_to_pair("XRPUSDT"), None);
}

#[test]
fn simulated_pairs_are_listed_in_order() {
    let pairs = simulated_pairs();
    assert_eq!(pairs.len(), 4);
    assert_eq!(pairs[0], ("BTC_USDT", "BTC", "USDT"));
    assert_eq!(pairs[3], ("BNB_USDT", "BNB", "USDT"));
}

#[test]
fn quotes_cross_or_stay_back_by_their_offsets() {
    assert_eq!(quote_offset_bps(true, true, 7, 40), 7);
    assert_eq!(quote_offset_bps(true, false, 7, 40), -40);
    assert_eq!(quote_offset_bps(false, true, 7, 40), -7);
    assert_eq!(quote_offset_bps(false, false, 7, 40), 40);
    assert!(is_aggressive(449, 450));
    assert!(!is_aggressive(450, 450));
}

#[test]
fn quote_prices_follow_the_anchor() {
    assert_eq!(order_price(dec(10000, 2), 125), Some(dec(10125, 2)));
    assert_eq!(order_price(dec(10000, 2), -125).unwrap().to_string(), "98.75");
    assert_eq!(order_price(dec(65000123, 3), 15).unwrap().to_string(), "65097.62");
    assert_eq!(order_price(dec(1, 2), -100), Some(dec(1, 2)));
    assert_eq!(order_price(dec(5, 3), -125), Some(dec(1, 2)));
    // An anchor with 28 fractional digits: the product is rounded, as `*` rounds.
    let fine = Decimal::from_i128_with_scale(1_234_567_890_123_456_789_012_345_678, 28);
    assert!(order_price(fine, 15).is_some());
    // A huge anchor: the sum overflows, where `+` would panic.
    let huge = Decimal::from_i128_with_scale(79_228_162_514_264_337_593_543_950_335, 0);
    assert_eq!(order_price(huge, 15), None);
}

#[test]
fn largest_order_sizes_follow_the_profiles() {
    assert_eq!(max_order_units(dec(800, 4)), Some(800));
    assert_eq!(max_order_units(dec(5000, 4)), Some(5000));
    assert_eq!(max_order_units(dec(5, 4)), Some(10));
    assert_eq!(max_order_units(dec(-5, 4)), Some(10));
    let huge = Decimal::from_i128_with_scale(79_228_162_514_264_337_593_543_950_335, 0);
    assert_eq!(max_order_units(huge), None);
    assert_eq!(order_amount(125), dec(125, 4));
}

#[test]
fn live_tickers_give_positive_anchors_of_simulated_pairs() {
    assert_eq!(live_anchor("BTCUSDT", " 65000.12 "), Some(("BTC_USDT", dec(6500012, 2))));
    assert_eq!(live_anchor("ETHUSDT", "3100"), Some(("ETH_USDT", dec(3100, 0))));
    assert_eq!(live_anchor("XRPUSDT", "0.5"), None);
    assert_eq!(live_anchor("SOLUSDT", "0"), None);
    assert_eq!(live_anchor("SOLUSDT", "-3"), None);
    assert_eq!(live_anchor("BNBUSDT", "abc"), None);
}

#[test]
fn simulator_commands_change_the_state() {
    let mut sim = SimulatorState::default();
    let stopped = stop_simulator(&mut sim);
    assert!(!stopped.running && stopped.ok);
    assert_eq!(stopped.profile, "turbo");
    assert!(start_simulator(&mut sim, &StartSimulatorRequest { profile: Some("warp".to_string()) }).is_err());
    assert!(!sim.running);
    let started = start_simulator(&mut sim, &StartSimulatorRequest { profile: Some(" Fast".to_string()) }).unwrap();
    assert!(started.running);
    assert_eq!(started.profile, "fast");
    assert_eq!(set_simulator_profile(&mut sim, &ProfileRequest { profile: "h".to_string() }).unwrap().profile, "hyper");
    assert_eq!(
        set_simulator_profile(&mut sim, &ProfileRequest { profile: "x".to_string() }).unwrap_err(),
        "invalid simulator profile"
    );
    sim.finish_tick(&vec![("BTC_USDT".to_string(), 2)]);
    let status = simulator_status(&sim);
    assert_eq!((status.ticks, status.total_orders, status.total_fills), (1, 1, 2));
    assert_eq!(status.pair_stats[0].0, "BTC_USDT");
    assert_eq!(status.pair_stats[0].1.orders, 1);
    let reset = reset_simulator(&mut sim);
    assert!(reset.running);
    assert_eq!(simulator_status(&sim).total_fills, 0);
}

#[test]
fn a_stopped_worker_waits_and_a_running_one_ticks() {
    match worker_action(false, SimulatorProfile::Fast, 0) {
        WorkerAction::Wait { sleep_ms } => assert_eq!(sleep_ms, 400),
        WorkerAction::Tick { .. } => panic!("a stopped simulator must not tick"),
    }
    match worker_action(true, SimulatorProfile::Fast, 1999) {
        WorkerAction::Tick { refresh_anchors, config } => {
            assert!(!refresh_anchors);
            assert_eq!(config.interval_ms, 250);
        }
        WorkerAction::Wait { .. } => panic!("a running simulator must tick"),
    }
    match worker_action(true, SimulatorProfile::Hyper, 2000) {
        WorkerAction::Tick { refresh_anchors, config } => {
            assert!(refresh_anchors);
            assert_eq!(config.orders_per_pair_per_tick, 28);
        }
        WorkerAction::Wait { .. } => panic!("a running simulator must tick"),
    }
}

#[test]
fn steering_the_simulator_keeps_its_counters() {
    let mut sim = SimulatorState::default();
    sim.finish_tick(&vec![("BTC_USDT".to_string(), 2), ("ETH_USDT".to_string(), 1)]);
    let (ticks, orders, fills) = (sim.ticks, sim.total_orders, sim.total_fills);
    start_simulator(&mut sim, &StartSimulatorRequest { profile: Some("hyper".to_string()) }).unwrap();
    set_simulator_profile(&mut sim, &ProfileRequest { profile: "n".to_string() }).unwrap();
    stop_simulator(&mut sim);
    assert_eq!((sim.ticks, sim.total_orders, sim.total_fills), (ticks, orders, fills));
    reset_simulator(&mut sim);
    assert_eq!((sim.ticks, sim.total_orders, sim.total_fills), (0, 0, 0));
    assert!(sim.pair_stats.iter().all(|(_, s)| s.orders == 0 && s.fills == 0));
}

#[test]
fn warm_up_stops_on_anchors_or_after_ten_attempts() {
    assert!(keep_warming_up(1, false));
    assert!(!keep_warming_up(1, true));
    assert!(keep_warming_up(9, false));
    assert!(!keep_warming_up(10, false));
}

#[test]
fn a_pair_is_quoted_around_its_live_price_first() {
    assert_eq!(pair_anchor(Some(dec(100, 0)), Some(dec(99, 0))), Some(dec(100, 0)));
    assert_eq!(pair_anchor(None, Some(dec(99, 0))), Some(dec(99, 0)));
    assert_eq!(pair_anchor(None, None), None);
}
