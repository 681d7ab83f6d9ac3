//! Leaves of the Merkle sum tree of user balances: one node per user, carrying
//! the hash of the user's id and balance, and the balance itself. Snapshots come
//! either ready (one balance per user) or as database rows (available and locked
//! funds, summed).

use vstd::prelude::*;

use vstd::string::*;

use crate::decimal::{checked_add, decimal_checked_add, decimal_text, sum_is_exact, sum_spec, Decimal};
use crate::poseidon::{
    poseidon_error_text, poseidon_leaf_hash_with, poseidon_parameters, seeded_leaf_digest, PoseidonError,
};
use crate::text::{i64_to_string, int_text, u64_to_string};

verus! {

/// Length of a node hash in bytes.
pub const HASH_BYTES: usize = 32;

/// A node hash.
pub type HashBytes = [u8; HASH_BYTES];

/// A node of the Merkle sum tree: its hash and the balance it sums.
#[derive(Debug, Clone, PartialEq, Eq)]
pub struct MerkleNode {
    pub hash: HashBytes,
    pub balance: Decimal,
}

/// One user's balance.
#[derive(Debug, Clone, PartialEq, Eq)]
pub struct BalanceSnapshot {
    pub user_id: u64,
    pub balance: Decimal,
}

/// One balance row as stored: a signed user id, and available and locked funds.
#[derive(Debug, Clone, PartialEq, Eq)]
pub struct DbBalanceSnapshot {
    pub user_id: i64,
    pub available: Decimal,
    pub locked: Decimal,
}

/// Why leaves cannot be built.
#[derive(Debug, Clone, PartialEq, Eq)]
pub enum TreeError {
    EmptySnapshotInput,
    InvalidUserId(i64),
    NegativeBalance { user_id: u64, balance: Decimal },
    BalanceOverflow { user_id: u64 },
    HashingError(PoseidonError),
}

impl From<PoseidonError> for TreeError {
    fn from(value: PoseidonError) -> (r: TreeError) {
        TreeError::HashingError(value)
    }
}

impl vstd::std_specs::convert::FromSpecImpl<PoseidonError> for TreeError {
    open spec fn obeys_from_spec() -> bool {
        true
    }

    open spec fn from_spec(v: PoseidonError) -> TreeError {
        TreeError::HashingError(v)
    }
}

/// The text of a tree error (its `Display`).
pub open spec fn tree_error_text(e: TreeError) -> Seq<char> {
    match e {
        TreeError::EmptySnapshotInput => "snapshot input must not be empty"@,
        TreeError::InvalidUserId(user_id) => "invalid db user_id (must be >= 0): "@ + int_text(user_id as int),
        TreeError::NegativeBalance { user_id, balance } => "negative balance for user "@ + int_text(user_id as int)
            + ": "@ + decimal_text(balance),
        TreeError::BalanceOverflow { user_id } => "balance overflow while aggregating snapshot for user "@
            + int_text(user_id as int),
        TreeError::HashingError(err) => "poseidon hashing failed: "@ + poseidon_error_text(err),
    }
}

impl TreeError {
    /// Whether the decimals the error carries are representable.
    pub open spec fn decimals_wf(&self) -> bool {
        match self {
            TreeError::NegativeBalance { balance, .. } => balance.wf(),
            TreeError::HashingError(err) => err.balance().wf(),
            _ => true,
        }
    }

    /// The error as text.
    pub fn message(&self) -> (r: String)
        requires
            self.decimals_wf(),
        ensures
            r@ == tree_error_text(*self),
    {
        match self {
            TreeError::EmptySnapshotInput => String::from_str("snapshot input must not be empty"),
            TreeError::InvalidUserId(user_id) => {
                let mut r = String::from_str("invalid db user_id (must be >= 0): ");
                let t = i64_to_string(*user_id);
                r.append(t.as_str());
                r
            },
            TreeError::NegativeBalance { user_id, balance } => {
                let mut r = String::from_str("negative balance for user ");
                let t = u64_to_string(*user_id);
                r.append(t.as_str());
                r.append(": ");
                let b = balance.to_string();
                r.append(b.as_str());
                r
            },
            TreeError::BalanceOverflow { user_id } => {
                let mut r = String::from_str("balance overflow while aggregating snapshot for user ");
                let t = u64_to_string(*user_id);
                r.append(t.as_str());
                r
            },
            TreeError::HashingError(err) => {
                let mut r = String::from_str("poseidon hashing failed: ");
                let t = err.message();
                r.append(t.as_str());
                r
            },
        }
    }
}

/// Whether a snapshot's balance is below zero.
pub open spec fn negative(s: BalanceSnapshot) -> bool {
    s.balance.is_negative()
}

/// The index of the first snapshot with a negative balance (meaningful when there
/// is one).
pub open spec fn first_negative(s: Seq<BalanceSnapshot>) -> int {
    choose|i: int| 0 <= i < s.len() && #[trigger] negative(s[i]) && forall|k: int| 0 <= k < i ==> !negative(s[k])
}

/// Why snapshots are refused: none at all, or the first negative balance.
pub open spec fn leaf_error(s: Seq<BalanceSnapshot>) -> Option<TreeError> {
    if s.len() == 0 {
        Some(TreeError::EmptySnapshotInput)
    } else if exists|i: int| 0 <= i < s.len() && #[trigger] negative(s[i]) {
        let i = first_negative(s);
        Some(TreeError::NegativeBalance { user_id: s[i].user_id, balance: s[i].balance })
    } else {
        None
    }
}

/// Snapshots are refused only when there are none, or for a balance whose sign
/// bit is set: a non-empty list with no such balance (zero balances included) is
/// accepted, a refused balance is one of the list's and is negative, and any list
/// holding a negative balance is refused for one.
pub proof fn law_only_negative_balances_are_refused(s: Seq<BalanceSnapshot>)
    ensures
        s.len() > 0 && (forall|i: int| 0 <= i < s.len() ==> !(#[trigger] s[i]).balance.is_negative()) ==> leaf_error(
            s,
        ) is None,
        s.len() == 0 ==> leaf_error(s) == Some(TreeError::EmptySnapshotInput),
        leaf_error(s) matches Some(TreeError::NegativeBalance { user_id, balance }) ==> exists|i: int|
            0 <= i < s.len() && (#[trigger] s[i]).user_id == user_id && s[i].balance == balance
                && balance.is_negative(),
        (exists|i: int| 0 <= i < s.len() && (#[trigger] s[i]).balance.is_negative()) ==> leaf_error(
            s,
        ) matches Some(TreeError::NegativeBalance { .. }),
        leaf_error(s) matches Some(e) ==> e is EmptySnapshotInput || e is NegativeBalance,
{
    if s.len() > 0 && exists|i: int| 0 <= i < s.len() && #[trigger] negative(s[i]) {
        let w = choose|i: int| 0 <= i < s.len() && #[trigger] negative(s[i]);
        let f = lemma_some_first_negative(s, w);
        lemma_first_negative(s, f);
    }
    if exists|i: int| 0 <= i < s.len() && (#[trigger] s[i]).balance.is_negative() {
        let i = choose|i: int| 0 <= i < s.len() && (#[trigger] s[i]).balance.is_negative();
        assert(negative(s[i]));
    }
}

/// Why a database row is refused: a negative user id, or available plus locked
/// funds that overflow.
pub open spec fn row_error(r: DbBalanceSnapshot) -> Option<TreeError> {
    if r.user_id < 0 {
        Some(TreeError::InvalidUserId(r.user_id))
    } else if decimal_checked_add(r.available, r.locked) is None {
        Some(TreeError::BalanceOverflow { user_id: r.user_id as u64 })
    } else {
        None
    }
}

/// Whether a database row is refused.
pub open spec fn row_fails(r: DbBalanceSnapshot) -> bool {
    row_error(r) is Some
}

/// The index of the first refused row (meaningful when there is one).
pub open spec fn first_failing(db: Seq<DbBalanceSnapshot>) -> int {
    choose|i: int| 0 <= i < db.len() && #[trigger] row_fails(db[i]) && forall|k: int| 0 <= k < i ==> !row_fails(db[k])
}

/// Why database rows are refused: none at all, or the first refused row.
pub open spec fn normalize_error(db: Seq<DbBalanceSnapshot>) -> Option<TreeError> {
    if db.len() == 0 {
        Some(TreeError::EmptySnapshotInput)
    } else if exists|i: int| 0 <= i < db.len() && #[trigger] row_fails(db[i]) {
        row_error(db[first_failing(db)])
    } else {
        None
    }
}

/// The snapshot of a row: the user id as unsigned, and available plus locked funds.
pub open spec fn normalized_row(r: DbBalanceSnapshot) -> BalanceSnapshot {
    BalanceSnapshot { user_id: r.user_id as u64, balance: decimal_checked_add(r.available, r.locked).unwrap() }
}

/// The snapshots of some rows.
pub open spec fn normalized(db: Seq<DbBalanceSnapshot>) -> Seq<BalanceSnapshot> {
    db.map_values(|r: DbBalanceSnapshot| normalized_row(r))
}

/// A negative balance with none before it is the first one.
proof fn lemma_first_negative(s: Seq<BalanceSnapshot>, i: int)
    requires
        0 <= i < s.len(),
        negative(s[i]),
        forall|k: int| 0 <= k < i ==> !negative(s[k]),
    ensures
        exists|j: int| 0 <= j < s.len() && #[trigger] negative(s[j]),
        first_negative(s) == i,
{
    assert(negative(s[i]));
    let j = first_negative(s);
    if j < i {
        assert(!negative(s[j]));
    }
    if j > i {
        assert(!negative(s[i]));
    }
}

/// A list with a negative balance at `i` has a first negative balance, at or
/// before `i`.
proof fn lemma_some_first_negative(s: Seq<BalanceSnapshot>, i: int) -> (f: int)
    requires
        0 <= i < s.len(),
        negative(s[i]),
    ensures
        0 <= f <= i,
        negative(s[f]),
        forall|k: int| 0 <= k < f ==> !negative(s[k]),
    decreases i,
{
    if exists|k: int| 0 <= k < i && #[trigger] negative(s[k]) {
        let k = choose|k: int| 0 <= k < i && #[trigger] negative(s[k]);
        lemma_some_first_negative(s, k)
    } else {
        i
    }
}

/// A refused row with none before it is the first one.
proof fn lemma_first_failing(db: Seq<DbBalanceSnapshot>, i: int)
    requires
        0 <= i < db.len(),
        row_fails(db[i]),
        forall|k: int| 0 <= k < i ==> !row_fails(db[k]),
    ensures
        exists|j: int| 0 <= j < db.len() && #[trigger] row_fails(db[j]),
        first_failing(db) == i,
{
    assert(row_fails(db[i]));
    let j = first_failing(db);
    if j < i {
        assert(!row_fails(db[j]));
    }
    if j > i {
        assert(!row_fails(db[i]));
    }
}

/// One leaf per snapshot, in order: the hash `leaf_hasher` gives for the user id
/// and balance, and the balance. Refuses an empty input and the first negative
/// balance.
pub fn build_leaf_nodes<F>(snapshots: &[BalanceSnapshot], leaf_hasher: F) -> (r: Result<Vec<MerkleNode>, TreeError>) where
    F: Fn(u64, &Decimal) -> HashBytes,

    requires
        forall|id: u64, b: &Decimal| call_requires(leaf_hasher, (id, b)),
    ensures
        match r {
            Ok(leaves) => {
                &&& leaf_error(snapshots@) is None
                &&& leaves@.len() == snapshots@.len()
                &&& forall|i: int|
                    0 <= i < leaves@.len() ==> {
                        &&& (#[trigger] leaves@[i]).balance == snapshots@[i].balance
                        &&& call_ensures(leaf_hasher, (snapshots@[i].user_id, &snapshots@[i].balance), leaves@[i].hash)
                    }
            },
            Err(e) => leaf_error(snapshots@) == Some(e),
        },
{
    if snapshots.len() == 0 {
        return Err(TreeError::EmptySnapshotInput);
    }
    let mut leaves: Vec<MerkleNode> = Vec::new();
    let mut i: usize = 0;
    while i < snapshots.len()
        invariant
            forall|id: u64, b: &Decimal| call_requires(leaf_hasher, (id, b)),
            i <= snapshots@.len(),
            leaves@.len() == i,
            forall|k: int| 0 <= k < i ==> !negative(#[trigger] snapshots@[k]),
            forall|k: int|
                0 <= k < i ==> {
                    &&& (#[trigger] leaves@[k]).balance == snapshots@[k].balance
                    &&& call_ensures(leaf_hasher, (snapshots@[k].user_id, &snapshots@[k].balance), leaves@[k].hash)
                },
        decreases snapshots@.len() - i,
    {
        let snapshot = &snapshots[i];
        if snapshot.balance.is_sign_negative() {
            proof {
                lemma_first_negative(snapshots@, i as int);
            }
            return Err(TreeError::NegativeBalance { user_id: snapshot.user_id, balance: snapshot.balance });
        }
        let hash = leaf_hasher(snapshot.user_id, &snapshot.balance);
        leaves.push(MerkleNode { hash, balance: snapshot.balance });
        i = i + 1;
    }
    proof {
        assert(!exists|j: int| 0 <= j < snapshots@.len() && #[trigger] negative(snapshots@[j]));
    }
    Ok(leaves)
}

/// Snapshots from database rows, in order: the user id as unsigned and available
/// plus locked funds. Refuses an empty input and the first row with a negative
/// user id or a sum that overflows.
pub fn normalize_db_snapshots(db_snapshots: &[DbBalanceSnapshot]) -> (r: Result<Vec<BalanceSnapshot>, TreeError>)
    requires
        forall|i: int|
            0 <= i < db_snapshots@.len() ==> (#[trigger] db_snapshots@[i]).available.wf()
                && db_snapshots@[i].locked.wf(),
    ensures
        match r {
            Ok(v) => {
                &&& normalize_error(db_snapshots@) is None
                &&& v@ == normalized(db_snapshots@)
                &&& forall|i: int| 0 <= i < v@.len() ==> (#[trigger] v@[i]).balance.wf()
                &&& forall|i: int|
                    0 <= i < v@.len() && sum_is_exact(db_snapshots@[i].available, db_snapshots@[i].locked)
                        ==> (#[trigger] v@[i]).balance == sum_spec(db_snapshots@[i].available, db_snapshots@[i].locked)
            },
            Err(e) => normalize_error(db_snapshots@) == Some(e),
        },
{
    if db_snapshots.len() == 0 {
        return Err(TreeError::EmptySnapshotInput);
    }
    let mut out: Vec<BalanceSnapshot> = Vec::new();
    let mut i: usize = 0;
    while i < db_snapshots.len()
        invariant
            forall|k: int|
                0 <= k < db_snapshots@.len() ==> (#[trigger] db_snapshots@[k]).available.wf()
                    && db_snapshots@[k].locked.wf(),
            i <= db_snapshots@.len(),
            forall|k: int| 0 <= k < i ==> !row_fails(#[trigger] db_snapshots@[k]),
            out@ == normalized(db_snapshots@.take(i as int)),
            forall|k: int| 0 <= k < out@.len() ==> (#[trigger] out@[k]).balance.wf(),
            forall|k: int|
                0 <= k < out@.len() && sum_is_exact(db_snapshots@[k].available, db_snapshots@[k].locked)
                    ==> (#[trigger] out@[k]).balance == sum_spec(db_snapshots@[k].available, db_snapshots@[k].locked),
        decreases db_snapshots@.len() - i,
    {
        let row = &db_snapshots[i];
        if row.user_id < 0 {
            proof {
                lemma_first_failing(db_snapshots@, i as int);
            }
            return Err(TreeError::InvalidUserId(row.user_id));
        }
        let user_id = row.user_id as u64;
        let balance = match checked_add(&row.available, &row.locked) {
            Some(b) => b,
            None => {
                proof {
                    lemma_first_failing(db_snapshots@, i as int);
                }
                return Err(TreeError::BalanceOverflow { user_id });
            },
        };
        out.push(BalanceSnapshot { user_id, balance });
        proof {
            assert(db_snapshots@.take(i + 1) =~= db_snapshots@.take(i as int).push(db_snapshots@[i as int]));
            assert(out@ =~= normalized(db_snapshots@.take(i + 1)));
        }
        i = i + 1;
    }
    proof {
        assert(db_snapshots@.take(i as int) =~= db_snapshots@);
        assert(!exists|j: int| 0 <= j < db_snapshots@.len() && #[trigger] row_fails(db_snapshots@[j]));
    }
    Ok(out)
}

/// Leaves from database rows: the rows' snapshots (see [`normalize_db_snapshots`]),
/// then their leaves (see [`build_leaf_nodes`]).
pub fn build_leaf_nodes_from_db_snapshots<F>(db_snapshots: &[DbBalanceSnapshot], leaf_hasher: F) -> (r: Result<
    Vec<MerkleNode>,
    TreeError,
>) where
    F: Fn(u64, &Decimal) -> HashBytes,

    requires
        forall|id: u64, b: &Decimal| call_requires(leaf_hasher, (id, b)),
        forall|i: int|
            0 <= i < db_snapshots@.len() ==> (#[trigger] db_snapshots@[i]).available.wf()
                && db_snapshots@[i].locked.wf(),
    ensures
        match r {
            Ok(leaves) => {
                let s = normalized(db_snapshots@);
                &&& normalize_error(db_snapshots@) is None
                &&& leaf_error(s) is None
                &&& leaves@.len() == s.len()
                &&& forall|i: int|
                    0 <= i < leaves@.len() ==> {
                        &&& (#[trigger] leaves@[i]).balance == s[i].balance
                        &&& call_ensures(leaf_hasher, (s[i].user_id, &s[i].balance), leaves@[i].hash)
                    }
            },
            Err(e) => match normalize_error(db_snapshots@) {
                Some(ne) => e == ne,
                None => leaf_error(normalized(db_snapshots@)) == Some(e),
            },
        },
{
    let normalized_rows = match normalize_db_snapshots(db_snapshots) {
        Ok(v) => v,
        Err(e) => {
            return Err(e);
        },
    };
    build_leaf_nodes(normalized_rows.as_slice(), leaf_hasher)
}

/// The leaves of the snapshots, in order, each hashed under the seeded Poseidon
/// parameters (see [`seeded_leaf_digest`]).
pub open spec fn poseidon_leaves(snapshots: Seq<BalanceSnapshot>, leaves: Seq<MerkleNode>) -> bool {
    &&& leaves.len() == snapshots.len()
    &&& forall|i: int|
        0 <= i < leaves.len() ==> {
            &&& (#[trigger] leaves[i]).balance == snapshots[i].balance
            &&& leaves[i].hash@ == seeded_leaf_digest(snapshots[i].user_id, snapshots[i].balance)
        }
}

/// One leaf per snapshot, in order, all hashed under the seeded Poseidon
/// parameters. Refuses an empty input and the first negative balance; hashing
/// then cannot fail.
pub fn build_poseidon_leaf_nodes(snapshots: &[BalanceSnapshot]) -> (r: Result<Vec<MerkleNode>, TreeError>)
    requires
        forall|i: int| 0 <= i < snapshots@.len() ==> (#[trigger] snapshots@[i]).balance.wf(),
    ensures
        match r {
            Ok(leaves) => {
                &&& leaf_error(snapshots@) is None
                &&& poseidon_leaves(snapshots@, leaves@)
            },
            Err(e) => leaf_error(snapshots@) == Some(e),
        },
{
    if snapshots.len() == 0 {
        return Err(TreeError::EmptySnapshotInput);
    }
    let config = poseidon_parameters();
    let mut leaves: Vec<MerkleNode> = Vec::new();
    let mut i: usize = 0;
    while i < snapshots.len()
        invariant
            forall|k: int| 0 <= k < snapshots@.len() ==> (#[trigger] snapshots@[k]).balance.wf(),
            i <= snapshots@.len(),
            leaves@.len() == i,
            forall|k: int| 0 <= k < i ==> !negative(#[trigger] snapshots@[k]),
            config.is_seeded(),
            poseidon_leaves(snapshots@.take(i as int), leaves@),
        decreases snapshots@.len() - i,
    {
        let snapshot = &snapshots[i];
        if snapshot.balance.is_sign_negative() {
            proof {
                lemma_first_negative(snapshots@, i as int);
            }
            return Err(TreeError::NegativeBalance { user_id: snapshot.user_id, balance: snapshot.balance });
        }
        let hash = match poseidon_leaf_hash_with(&config, snapshot.user_id, &snapshot.balance) {
            Ok(h) => h,
            Err(e) => {
                return Err(TreeError::from(e));
            },
        };
        leaves.push(MerkleNode { hash, balance: snapshot.balance });
        i = i + 1;
        proof {
            assert(snapshots@.take(i as int).drop_last() =~= snapshots@.take(i - 1));
        }
    }
    proof {
        assert(!exists|j: int| 0 <= j < snapshots@.len() && #[trigger] negative(snapshots@[j]));
        assert(snapshots@.take(i as int) =~= snapshots@);
    }
    let r: Result<Vec<MerkleNode>, TreeError> = Ok(leaves);
    proof {
        assert(poseidon_leaves(snapshots@, r->Ok_0@));
    }
    r
}

/// Poseidon leaves from database rows: the rows' snapshots, then their leaves.
pub fn build_poseidon_leaf_nodes_from_db_snapshots(db_snapshots: &[DbBalanceSnapshot]) -> (r: Result<
    Vec<MerkleNode>,
    TreeError,
>)
    requires
        forall|i: int|
            0 <= i < db_snapshots@.len() ==> (#[trigger] db_snapshots@[i]).available.wf()
                && db_snapshots@[i].locked.wf(),
    ensures
        match r {
            Ok(leaves) => {
                let s = normalized(db_snapshots@);
                &&& normalize_error(db_snapshots@) is None
                &&& leaf_error(s) is None
                &&& poseidon_leaves(s, leaves@)
            },
            Err(e) => match normalize_error(db_snapshots@) {
                Some(ne) => e == ne,
                None => leaf_error(normalized(db_snapshots@)) == Some(e),
            },
        },
{
    let normalized_rows = match normalize_db_snapshots(db_snapshots) {
        Ok(v) => v,
        Err(e) => {
            return Err(e);
        },
    };
    build_poseidon_leaf_nodes(normalized_rows.as_slice())
}

} // verus!
