use std::str::FromStr;

use cex_zkp::decimal::Decimal;
use cex_zkp::state::{ExchangeFunds, SimulatorPairStats, SimulatorProfile, SimulatorState};

fn dec(mantissa: i64, scale: u32) -> Decimal {
    Decimal::new(mantissa, scale)
}

#[test]
fn profiles_parse_names_and_aliases() {
    assert_eq!(SimulatorProfile::parse("normal"), Some(SimulatorProfile::Normal));
    assert_eq!(SimulatorProfile::parse("N"), Some(SimulatorProfile::Normal));
    assert_eq!(SimulatorProfile::parse("  Fast\t"), Some(SimulatorProfile::Fast));
    assert_eq!(SimulatorProfile::parse("TURBO"), Some(SimulatorProfile::Turbo));
    assert_eq!(SimulatorProfile::parse("t"), Some(SimulatorProfile::Turbo));
    assert_eq!(SimulatorProfile::parse("\nhYpEr "), Some(SimulatorProfile::Hyper));
    assert_eq!(SimulatorProfile::parse("h"), Some(SimulatorProfile::Hyper));
    assert_eq!(SimulatorProfile::parse("turbo2"), None);
    assert_eq!(SimulatorProfile::parse(""), None);
    assert_eq!(SimulatorProfile::parse("   "), None);
    assert_eq!(SimulatorProfile::parse("fa st"), None);
}

#[test]
fn profile_names_parse_back() {
    for p in [SimulatorProfile::Normal, SimulatorProfile::Fast, SimulatorProfile::Turbo, SimulatorProfile::Hyper] {
        assert_eq!(SimulatorProfile::parse(p.as_str()), Some(p));
        assert_eq!(SimulatorProfile::from_str(p.as_str()), Ok(p));
    }
    assert_eq!(SimulatorProfile::Hyper.as_str(), "hyper");
    assert_eq!(SimulatorProfile::from_str("x"), Err("invalid simulator profile"));
}

#[test]
fn default_state_runs_turbo_with_four_pairs() {
    let s = SimulatorState::default();
    assert!(s.running);
    assert_eq!(s.profile, SimulatorProfile::Turbo);
    assert_eq!((s.ticks, s.total_orders, s.total_fills), (0, 0, 0));
    let names: Vec<&str> = s.pair_stats.iter().map(|(n, _)| n.as_str()).collect();
    assert_eq!(names, vec!["BTC_USDT", "ETH_USDT", "SOL_USDT", "BNB_USDT"]);
}

#[test]
fn reset_counters_zeroes_everything_but_keeps_pairs() {
    let mut s = SimulatorState::default();
    s.finish_tick(&vec![("ETH_USDT".to_string(), 2), ("XRP_USDT".to_string(), 1)]);
    s.running = false;
    s.reset_counters();
    assert!(!s.running);
    assert_eq!((s.ticks, s.total_orders, s.total_fills), (0, 0, 0));
    assert_eq!(s.pair_stats.len(), 5);
    assert!(s.pair_stats.iter().all(|(_, st)| *st == SimulatorPairStats { orders: 0, fills: 0 }));
}

#[test]
fn finishing_a_tick_adds_up_orders_and_fills_per_pair() {
    let mut s = SimulatorState::default();
    s.finish_tick(&vec![
        ("BTC_USDT".to_string(), 3),
        ("BTC_USDT".to_string(), 0),
        ("SOL_USDT".to_string(), 1),
        ("DOGE_USDT".to_string(), 4),
    ]);
    assert_eq!(s.ticks, 1);
    assert_eq!(s.total_orders, 4);
    assert_eq!(s.total_fills, 8);
    assert_eq!(s.pair_stats[0].1, SimulatorPairStats { orders: 2, fills: 3 });
    assert_eq!(s.pair_stats[2].1, SimulatorPairStats { orders: 1, fills: 1 });
    assert_eq!(s.pair_stats[4].0, "DOGE_USDT");
    assert_eq!(s.pair_stats[4].1, SimulatorPairStats { orders: 1, fills: 4 });
}

#[test]
fn exchange_funds_track_capital_and_users() {
    let mut f = ExchangeFunds::new(dec(500_000_000, 0), dec(1250, 1));
    assert_eq!(f.total_exchange_usdt, dec(5_000_001_250, 1));
    f.apply_user_delta(dec(-25, 1));
    assert_eq!(f.total_user_usdt, dec(1225, 1));
    assert_eq!(f.total_exchange_usdt, dec(5_000_001_225, 1));
    assert_eq!(f.apply_capital_delta(dec(-600_000_000, 0)), Err("exchange capital cannot be negative"));
    assert_eq!(f.base_capital_usdt, dec(500_000_000, 0));
    assert_eq!(f.apply_capital_delta(dec(-500_000_000, 0)), Ok(()));
    assert_eq!(f.base_capital_usdt, dec(0, 0));
    assert_eq!(f.total_exchange_usdt, dec(1225, 1));
}

#[test]
fn profile_parsing_ignores_ascii_case() {
    for text in ["normal", " Fast ", "tUrBo", "h", "warp", ""] {
        assert_eq!(SimulatorProfile::parse(text), SimulatorProfile::parse(&text.to_ascii_uppercase()));
        assert_eq!(SimulatorProfile::from_str(text).ok(), SimulatorProfile::parse(text));
    }
}

#[test]
fn exchange_funds_round_as_decimals_add() {
    // 28 significant digits plus a small delta: the sum is rounded, not refused.
    let users = Decimal::from_i128_with_scale(1_234_567_890_123_456_789_012_345_678, 20);
    let mut f = ExchangeFunds::new(dec(1, 0), users);
    f.apply_user_delta(Decimal::from_i128_with_scale(1, 28));
    assert!(f.total_user_usdt.scale() <= 28);
    assert_eq!(f.total_exchange_usdt, dec(1, 0).checked_add(&f.total_user_usdt).unwrap());
}
