use cex_zkp::circuit::{compute_carry_bits, decimal_to_scaled_u128, CircuitInputError, MerkleNodeRelationCircuit};
use cex_zkp::decimal::Decimal;

fn dec(mantissa: i64, scale: u32) -> Decimal {
    Decimal::new(mantissa, scale)
}

#[test]
fn carry_out_is_set_exactly_on_overflow() {
    assert!(compute_carry_bits(u128::MAX, 1)[128]);
    assert!(!compute_carry_bits(u128::MAX - 1, 1)[128]);
    assert!(!compute_carry_bits(0, 0)[128]);
    assert!(compute_carry_bits(1u128 << 127, 1u128 << 127)[128]);
}

#[test]
fn carries_follow_the_ripple_adder() {
    let c = compute_carry_bits(0b1011, 0b0011);
    assert!(!c[0]);
    assert!(c[1]);
    assert!(c[2]);
    assert!(!c[3]);
    assert!(c.iter().skip(3).all(|b| !*b));
}

#[test]
fn circuit_from_decimals_scales_balances() {
    let c = MerkleNodeRelationCircuit::from_decimals(
        [11u8; 32],
        [22u8; 32],
        [33u8; 32],
        dec(1050000000, 8),
        dec(225, 2),
        dec(1275, 2),
    )
    .expect("circuit input must be valid");
    assert_eq!(c.left_balance_scaled, 1_050_000_000);
    assert_eq!(c.right_balance_scaled, 225_000_000);
    assert_eq!(c.parent_balance_scaled, 1_275_000_000);
    assert_eq!(c.left_hash, [11u8; 32]);
    assert_eq!(c.parent_hash, [33u8; 32]);
}

#[test]
fn circuit_from_decimals_reports_the_first_negative_balance() {
    let err =
        MerkleNodeRelationCircuit::from_decimals([0u8; 32], [0u8; 32], [0u8; 32], dec(1, 0), dec(-2, 0), dec(-3, 0))
            .unwrap_err();
    assert_eq!(err, CircuitInputError::NegativeBalance(dec(-2, 0)));
}

#[test]
fn circuit_from_scaled_keeps_its_inputs() {
    let c = MerkleNodeRelationCircuit::from_scaled([1u8; 32], [2u8; 32], [3u8; 32], u128::MAX, 1, 0);
    assert_eq!(c.left_balance_scaled, u128::MAX);
    assert_eq!(c.right_balance_scaled, 1);
    assert_eq!(c.parent_balance_scaled, 0);
    assert_eq!(c.right_hash, [2u8; 32]);
}

#[test]
fn scaled_u128_conversion_refuses_negatives() {
    assert_eq!(decimal_to_scaled_u128(dec(3, 0)).unwrap(), 300_000_000);
    assert_eq!(decimal_to_scaled_u128(dec(-3, 0)).unwrap_err(), CircuitInputError::NegativeBalance(dec(-3, 0)));
}

#[test]
fn circuit_errors_read_as_text() {
    assert_eq!(CircuitInputError::NegativeBalance(dec(-25, 1)).message(), "balance must be non-negative, got -2.5");
    assert_eq!(CircuitInputError::BalanceConversionOverflow(dec(7, 0)).message(), "balance conversion overflow for 7");
}
