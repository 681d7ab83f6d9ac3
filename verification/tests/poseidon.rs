use ark_bn254::Fr;
use ark_ff::{BigInteger, PrimeField};
use ark_sponge::poseidon::{PoseidonParameters, PoseidonSponge};
use ark_sponge::CryptographicSponge;
use cex_zkp::decimal::Decimal;
use cex_zkp::poseidon::{
    balance_to_scaled, first_32_bytes, poseidon_internal_hash, poseidon_internal_hash_with, poseidon_leaf_hash,
    poseidon_leaf_hash_with, poseidon_parameters, u128_field_bytes, PoseidonConfig, PoseidonError,
};

fn dec(mantissa: i64, scale: u32) -> Decimal {
    Decimal::new(mantissa, scale)
}

fn field_rows(rows: &[Vec<[u8; 32]>]) -> Vec<Vec<Fr>> {
    rows.iter().map(|row| row.iter().map(|b| Fr::from_le_bytes_mod_order(b)).collect()).collect()
}

fn sponge_parameters(c: &PoseidonConfig) -> PoseidonParameters<Fr> {
    PoseidonParameters::new(c.full_rounds, c.partial_rounds, c.alpha, field_rows(&c.mds), field_rows(&c.ark))
}

#[test]
fn poseidon_leaf_hash_is_deterministic() {
    let h1 = poseidon_leaf_hash(7, &dec(1234000000, 8)).expect("hash must succeed");
    let h2 = poseidon_leaf_hash(7, &dec(1234000000, 8)).expect("hash must succeed");
    assert_eq!(h1, h2);
}

#[test]
fn poseidon_leaf_hash_changes_with_input() {
    let h1 = poseidon_leaf_hash(7, &dec(1234, 2)).expect("hash must succeed");
    let h2 = poseidon_leaf_hash(8, &dec(1234, 2)).expect("hash must succeed");
    let h3 = poseidon_leaf_hash(7, &dec(1235, 2)).expect("hash must succeed");

    assert_ne!(h1, h2);
    assert_ne!(h1, h3);
}

#[test]
fn poseidon_internal_hash_uses_all_inputs() {
    let l1 = poseidon_leaf_hash(1, &dec(10, 0)).expect("hash must succeed");
    let r1 = poseidon_leaf_hash(2, &dec(5, 0)).expect("hash must succeed");

    let base = poseidon_internal_hash(&l1, &r1, &dec(10, 0), &dec(5, 0)).expect("hash must succeed");
    let changed_balance = poseidon_internal_hash(&l1, &r1, &dec(11, 0), &dec(5, 0)).expect("hash must succeed");
    let changed_child = poseidon_internal_hash(&r1, &l1, &dec(10, 0), &dec(5, 0)).expect("hash must succeed");

    assert_ne!(base, changed_balance);
    assert_ne!(base, changed_child);
}

#[test]
fn poseidon_rejects_negative_balance() {
    let err = poseidon_leaf_hash(1, &dec(-10, 1)).expect_err("negative balance must fail");
    assert_eq!(err, PoseidonError::NegativeBalance(dec(-10, 1)));
}

#[test]
fn equal_balances_at_other_scales_hash_alike() {
    let h1 = poseidon_leaf_hash(3, &dec(1234, 2)).unwrap();
    let h2 = poseidon_leaf_hash(3, &dec(12340000, 6)).unwrap();
    assert_eq!(h1, h2);
}

#[test]
fn internal_hash_reports_the_left_negative_balance_first() {
    let h = [0u8; 32];
    let err = poseidon_internal_hash(&h, &h, &dec(-1, 0), &dec(-2, 0)).unwrap_err();
    assert_eq!(err, PoseidonError::NegativeBalance(dec(-1, 0)));
    let err = poseidon_internal_hash(&h, &h, &dec(1, 0), &dec(-2, 0)).unwrap_err();
    assert_eq!(err, PoseidonError::NegativeBalance(dec(-2, 0)));
}

#[test]
fn balances_scale_to_eight_fractional_digits() {
    assert_eq!(balance_to_scaled(&dec(1275, 2)).unwrap(), 1_275_000_000u128);
    assert_eq!(balance_to_scaled(&dec(0, 0)).unwrap(), 0u128);
    assert_eq!(balance_to_scaled(&dec(123456789, 9)).unwrap(), 12345679u128);
    assert_eq!(balance_to_scaled(&dec(-1, 3)).unwrap_err(), PoseidonError::NegativeBalance(dec(-1, 3)));
}

#[test]
fn field_bytes_are_padded_to_32() {
    let out = first_32_bytes(&vec![1u8, 2, 3]);
    assert_eq!(&out[..4], &[1, 2, 3, 0]);
    assert!(out[3..].iter().all(|b| *b == 0));
    let long: Vec<u8> = (0u8..40).collect();
    let out = first_32_bytes(&long);
    assert_eq!(out[31], 31);
}

#[test]
fn parameters_have_the_documented_shape() {
    let p = poseidon_parameters();
    assert_eq!(p.full_rounds, 8);
    assert_eq!(p.partial_rounds, 57);
    assert_eq!(p.alpha, 5);
    assert_eq!(p.mds.len(), 3);
    assert!(p.mds.iter().all(|row| row.len() == 3));
    assert_eq!(p.ark.len(), 65);
}

#[test]
fn leaf_hash_equals_a_sponge_absorbing_one_element_at_a_time() {
    let c = poseidon_parameters();
    let params = sponge_parameters(&c);
    let mut sponge = PoseidonSponge::<Fr>::new(&params);
    sponge.absorb(&Fr::from(7u64));
    sponge.absorb(&Fr::from(1_234_000_000u128));
    let out: Vec<Fr> = sponge.squeeze_field_elements(1);
    let bytes = out[0].into_repr().to_bytes_le();
    let h = poseidon_leaf_hash(7, &dec(1234, 2)).unwrap();
    assert_eq!(&h[..], &bytes[..32]);
}

#[test]
fn internal_hash_equals_a_sponge_over_children_and_balances() {
    let c = poseidon_parameters();
    let params = sponge_parameters(&c);
    let left = [11u8; 32];
    let right = [22u8; 32];
    let mut sponge = PoseidonSponge::<Fr>::new(&params);
    sponge.absorb(&Fr::from_le_bytes_mod_order(&left));
    sponge.absorb(&Fr::from_le_bytes_mod_order(&right));
    sponge.absorb(&Fr::from(1_050_000_000u128));
    sponge.absorb(&Fr::from(225_000_000u128));
    let out: Vec<Fr> = sponge.squeeze_field_elements(1);
    let bytes = out[0].into_repr().to_bytes_le();
    let h = poseidon_internal_hash(&left, &right, &dec(1050, 2), &dec(225, 2)).unwrap();
    assert_eq!(&h[..], &bytes[..32]);
}

#[test]
fn integers_become_little_endian_field_bytes() {
    let b = u128_field_bytes(0x0102_0304u128);
    assert_eq!(&b[..5], &[4, 3, 2, 1, 0]);
    assert!(b[4..].iter().all(|x| *x == 0));
    let top = u128_field_bytes(u128::MAX);
    assert!(top[..16].iter().all(|x| *x == 0xff));
    assert!(top[16..].iter().all(|x| *x == 0));
}

#[test]
fn field_bytes_of_an_integer_match_the_field_element() {
    let x = 1_234_000_000u128;
    let bytes = Fr::from(x).into_repr().to_bytes_le();
    assert_eq!(&u128_field_bytes(x)[..], &bytes[..]);
}

#[test]
fn hashes_under_an_explicit_configuration_match_the_seeded_ones() {
    let c = poseidon_parameters();
    let leaf = poseidon_leaf_hash_with(&c, 7, &dec(1234, 2)).unwrap();
    assert_eq!(leaf, poseidon_leaf_hash(7, &dec(1234, 2)).unwrap());
    let left = [5u8; 32];
    let right = [6u8; 32];
    let node = poseidon_internal_hash_with(&c, &left, &right, &dec(3, 0), &dec(4, 0)).unwrap();
    assert_eq!(node, poseidon_internal_hash(&left, &right, &dec(3, 0), &dec(4, 0)).unwrap());
}

#[test]
fn another_configuration_gives_another_hash() {
    let c = poseidon_parameters();
    let mut other = poseidon_parameters();
    other.ark[0][0] = [1u8; 32];
    let a = poseidon_leaf_hash_with(&c, 7, &dec(1234, 2)).unwrap();
    let b = poseidon_leaf_hash_with(&other, 7, &dec(1234, 2)).unwrap();
    assert_ne!(a, b);
}

#[test]
fn parameters_hold_canonical_field_bytes() {
    let c = poseidon_parameters();
    for row in c.mds.iter().chain(c.ark.iter()) {
        for b in row {
            let back = Fr::from_le_bytes_mod_order(b).into_repr().to_bytes_le();
            assert_eq!(&b[..], &back[..]);
        }
    }
}

#[test]
fn negative_zero_balance_is_refused() {
    let mut minus_zero = dec(0, 1);
    minus_zero.set_sign_negative(true);
    assert!(minus_zero.is_sign_negative());
    assert!(minus_zero.is_zero());
    assert_eq!(minus_zero, dec(0, 0));
    assert_eq!(poseidon_leaf_hash(1, &minus_zero).unwrap_err(), PoseidonError::NegativeBalance(minus_zero));
    assert_eq!(minus_zero.to_string(), "-0.0");
}
