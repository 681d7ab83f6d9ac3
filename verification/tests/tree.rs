use cex_zkp::decimal::Decimal;
use cex_zkp::poseidon::PoseidonError;
use cex_zkp::tree::{
    build_leaf_nodes, build_leaf_nodes_from_db_snapshots, build_poseidon_leaf_nodes,
    build_poseidon_leaf_nodes_from_db_snapshots, normalize_db_snapshots, BalanceSnapshot, DbBalanceSnapshot,
    TreeError,
};

fn dec(mantissa: i64, scale: u32) -> Decimal {
    Decimal::new(mantissa, scale)
}

fn deterministic_hash(user_id: u64, balance: &Decimal) -> [u8; 32] {
    let mut hash = [0u8; 32];
    hash[0] = (user_id & 0xFF) as u8;
    hash[1] = (balance.scale() & 0xFF) as u8;
    hash
}

#[test]
fn build_leaf_nodes_successfully_from_snapshots() {
    let snapshots = vec![
        BalanceSnapshot { user_id: 1, balance: dec(125, 1) },
        BalanceSnapshot { user_id: 2, balance: dec(725, 2) },
    ];

    let leaves = build_leaf_nodes(&snapshots, deterministic_hash).expect("leaf build must succeed");
    assert_eq!(leaves.len(), 2);
    assert_eq!(leaves[0].balance, dec(125, 1));
    assert_eq!(leaves[0].hash[0], 1);
    assert_eq!(leaves[1].balance, dec(725, 2));
    assert_eq!(leaves[1].hash[0], 2);
}

#[test]
fn build_leaf_nodes_from_db_snapshots_aggregates_balances() {
    let db_snapshots = vec![
        DbBalanceSnapshot { user_id: 42, available: dec(1050, 2), locked: dec(125, 2) },
        DbBalanceSnapshot { user_id: 7, available: dec(3, 0), locked: dec(0, 0) },
    ];

    let leaves =
        build_leaf_nodes_from_db_snapshots(&db_snapshots, deterministic_hash).expect("leaf build must succeed");

    assert_eq!(leaves.len(), 2);
    assert_eq!(leaves[0].balance, dec(1175, 2));
    assert_eq!(leaves[0].hash[0], 42);
    assert_eq!(leaves[1].balance, dec(3, 0));
    assert_eq!(leaves[1].hash[0], 7);
}

#[test]
fn build_leaf_nodes_rejects_negative_balance() {
    let snapshots = vec![BalanceSnapshot { user_id: 9, balance: dec(-1, 1) }];

    let err = build_leaf_nodes(&snapshots, deterministic_hash).expect_err("negative balance must fail");
    assert_eq!(err, TreeError::NegativeBalance { user_id: 9, balance: dec(-1, 1) });
}

#[test]
fn build_leaf_nodes_rejects_empty_input() {
    let err = build_leaf_nodes(&[], deterministic_hash).expect_err("empty input must fail");
    assert_eq!(err, TreeError::EmptySnapshotInput);
}

#[test]
fn build_leaf_nodes_from_db_snapshots_rejects_negative_user_id() {
    let db_snapshots = vec![DbBalanceSnapshot { user_id: -1, available: dec(1, 0), locked: dec(2, 0) }];

    let err = build_leaf_nodes_from_db_snapshots(&db_snapshots, deterministic_hash)
        .expect_err("invalid user id must fail");
    assert_eq!(err, TreeError::InvalidUserId(-1));
}

#[test]
fn build_poseidon_leaf_nodes_successfully() {
    let snapshots = vec![
        BalanceSnapshot { user_id: 11, balance: dec(10001, 2) },
        BalanceSnapshot { user_id: 12, balance: dec(9999, 2) },
    ];

    let leaves = build_poseidon_leaf_nodes(&snapshots).expect("poseidon leaf build must succeed");
    assert_eq!(leaves.len(), 2);
    assert_ne!(leaves[0].hash, leaves[1].hash);
}

#[test]
fn first_negative_balance_is_the_one_reported() {
    let snapshots = vec![
        BalanceSnapshot { user_id: 1, balance: dec(5, 0) },
        BalanceSnapshot { user_id: 2, balance: dec(-3, 0) },
        BalanceSnapshot { user_id: 3, balance: dec(-4, 0) },
    ];
    let err = build_leaf_nodes(&snapshots, deterministic_hash).unwrap_err();
    assert_eq!(err, TreeError::NegativeBalance { user_id: 2, balance: dec(-3, 0) });
    let err = build_poseidon_leaf_nodes(&snapshots).unwrap_err();
    assert_eq!(err, TreeError::NegativeBalance { user_id: 2, balance: dec(-3, 0) });
}

#[test]
fn db_rows_report_the_first_refused_row() {
    let rows = vec![
        DbBalanceSnapshot { user_id: 1, available: dec(1, 0), locked: dec(0, 0) },
        DbBalanceSnapshot { user_id: -5, available: dec(1, 0), locked: dec(0, 0) },
        DbBalanceSnapshot { user_id: -6, available: dec(1, 0), locked: dec(0, 0) },
    ];
    assert_eq!(normalize_db_snapshots(&rows).unwrap_err(), TreeError::InvalidUserId(-5));
    assert_eq!(normalize_db_snapshots(&[]).unwrap_err(), TreeError::EmptySnapshotInput);
}

#[test]
fn db_rows_whose_sum_overflows_are_refused() {
    let max = Decimal::from_i128_with_scale(79228162514264337593543950335, 0);
    let rows = vec![DbBalanceSnapshot { user_id: 3, available: max, locked: dec(1, 0) }];
    assert_eq!(normalize_db_snapshots(&rows).unwrap_err(), TreeError::BalanceOverflow { user_id: 3 });
}

#[test]
fn db_rows_with_negative_sum_fail_at_leaf_stage() {
    let rows = vec![DbBalanceSnapshot { user_id: 8, available: dec(1, 0), locked: dec(-3, 0) }];
    let normalized = normalize_db_snapshots(&rows).unwrap();
    assert_eq!(normalized[0].balance, dec(-2, 0));
    assert_eq!(
        build_poseidon_leaf_nodes_from_db_snapshots(&rows).unwrap_err(),
        TreeError::NegativeBalance { user_id: 8, balance: dec(-2, 0) }
    );
}

#[test]
fn poseidon_leaves_from_db_rows_match_leaves_from_snapshots() {
    let rows = vec![DbBalanceSnapshot { user_id: 4, available: dec(250, 2), locked: dec(50, 2) }];
    let from_rows = build_poseidon_leaf_nodes_from_db_snapshots(&rows).unwrap();
    let from_snapshots = build_poseidon_leaf_nodes(&[BalanceSnapshot { user_id: 4, balance: dec(300, 2) }]).unwrap();
    assert_eq!(from_rows, from_snapshots);
}

#[test]
fn tree_errors_read_as_text() {
    assert_eq!(TreeError::EmptySnapshotInput.message(), "snapshot input must not be empty");
    assert_eq!(TreeError::InvalidUserId(-3).message(), "invalid db user_id (must be >= 0): -3");
    assert_eq!(
        TreeError::NegativeBalance { user_id: 9, balance: dec(-1, 1) }.message(),
        "negative balance for user 9: -0.1"
    );
    assert_eq!(
        TreeError::BalanceOverflow { user_id: 4 }.message(),
        "balance overflow while aggregating snapshot for user 4"
    );
    assert_eq!(
        TreeError::HashingError(PoseidonError::NegativeBalance(dec(-10, 1))).message(),
        "poseidon hashing failed: balance must be non-negative, got -1.0"
    );
    assert_eq!(TreeError::from(PoseidonError::BalanceOverflow(dec(1, 0))), TreeError::HashingError(PoseidonError::BalanceOverflow(dec(1, 0))));
}

#[test]
fn db_row_sums_are_exact() {
    let rows = vec![DbBalanceSnapshot { user_id: 5, available: dec(1, 28), locked: dec(2, 0) }];
    let normalized = normalize_db_snapshots(&rows).unwrap();
    assert_eq!(normalized[0].balance.to_string(), "2.0000000000000000000000000001");
    assert_eq!(normalized[0].user_id, 5);
}

#[test]
fn poseidon_leaves_hash_like_single_leaf_hashes() {
    let s = vec![
        BalanceSnapshot { user_id: 11, balance: Decimal::new(10001, 2) },
        BalanceSnapshot { user_id: 12, balance: Decimal::new(9999, 2) },
    ];
    let leaves = build_poseidon_leaf_nodes(&s).unwrap();
    for (leaf, snap) in leaves.iter().zip(s.iter()) {
        assert_eq!(leaf.hash, cex_zkp::poseidon::poseidon_leaf_hash(snap.user_id, &snap.balance).unwrap());
    }
}

#[test]
fn negative_zero_snapshot_is_refused() {
    let mut minus_zero = Decimal::new(0, 2);
    minus_zero.set_sign_negative(true);
    let s = vec![BalanceSnapshot { user_id: 4, balance: minus_zero }];
    assert_eq!(
        build_poseidon_leaf_nodes(&s).unwrap_err(),
        TreeError::NegativeBalance { user_id: 4, balance: minus_zero }
    );
}
