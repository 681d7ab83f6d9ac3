use cex_zkp::admin::{admin_metrics, halt_message, listed_assets, snapshot_id, suspend_message, treasury_metrics};
use cex_zkp::decimal::Decimal;

fn dec(mantissa: i64, scale: u32) -> Decimal {
    Decimal::new(mantissa, scale)
}

#[test]
fn metrics_report_volume_or_zero() {
    let m = admin_metrics(Some(dec(123450, 2)), 3, 9);
    assert_eq!(m.volume_24h_usdt, "1234.50");
    assert_eq!((m.total_users, m.active_orders), (3, 9));
    assert_eq!(admin_metrics(None, 0, 0).volume_24h_usdt, "0");
}

#[test]
fn treasury_ratio_divides_funds_by_liabilities() {
    let t = treasury_metrics(dec(500, 0), dec(200, 0)).unwrap();
    assert_eq!(t.total_exchange_funds, "500");
    assert_eq!(t.total_user_liabilities, "200");
    assert_eq!(t.solvency_ratio, "2.50");
    let t = treasury_metrics(dec(500, 0), dec(0, 0)).unwrap();
    assert_eq!(t.solvency_ratio, "infinity");
    let t = treasury_metrics(dec(500, 0), dec(-5, 0)).unwrap();
    assert_eq!(t.solvency_ratio, "infinity");
}

#[test]
fn treasury_ratio_overflow_gives_none() {
    let max = Decimal::from_i128_with_scale(79228162514264337593543950335, 0);
    assert!(treasury_metrics(max, dec(1, 28)).is_none());
}

#[test]
fn listed_assets_are_the_four_known_ones() {
    let assets = listed_assets();
    let rows: Vec<(&str, &str, i32, bool)> =
        assets.iter().map(|a| (a.symbol.as_str(), a.name.as_str(), a.decimals, a.is_active)).collect();
    assert_eq!(
        rows,
        vec![
            ("BTC", "Bitcoin", 8, true),
            ("USDT", "Tether", 4, true),
            ("ETH", "Ethereum", 8, false),
            ("SOL", "Solana", 8, false),
        ]
    );
}

#[test]
fn acknowledgements_name_their_subject() {
    assert_eq!(halt_message("BTC_USDT"), "Market BTC_USDT has been halted.");
    assert_eq!(suspend_message(-42), "User -42 has been suspended strictly.");
    assert_eq!(suspend_message(7), "User 7 has been suspended strictly.");
    assert_eq!(snapshot_id(1700000000), "snap_1700000000");
}
