//! Poseidon hashing of Merkle sum tree nodes over the BN254 scalar field, with
//! parameters drawn from a fixed seed so that every run uses the same ones.
//! Balances enter the hash as integers counted in units of `10^-8`.

use vstd::prelude::*;

use ark_bn254::Fr;
use ark_ff::{BigInteger, One, PrimeField, UniformRand};
use ark_sponge::poseidon::{PoseidonParameters, PoseidonSponge};
use ark_sponge::CryptographicSponge;
use rand::rngs::StdRng;
use rand::SeedableRng;

use vstd::string::*;

use crate::decimal::{decimal_rescaled, decimal_text, fits96, rescaled, Decimal};

verus! {

/// Fractional digits a balance is scaled to before hashing.
pub const BALANCE_SCALE: u32 = 8;

/// Full rounds of the permutation.
pub const FULL_ROUNDS: u32 = 8;

/// Partial rounds of the permutation.
pub const PARTIAL_ROUNDS: u32 = 57;

/// Exponent of the S-box.
pub const POSEIDON_ALPHA: u64 = 5;

/// Width of the permutation state (rate 2, capacity 1).
pub const STATE_WIDTH: usize = 3;

/// Byte that fills the seed of the parameter generator.
pub const PARAM_SEED_BYTE: u8 = 42;

/// Why a balance cannot be hashed.
#[derive(Debug, Clone, PartialEq, Eq)]
pub enum PoseidonError {
    NegativeBalance(Decimal),
    BalanceOverflow(Decimal),
}

/// The text of a hashing error (its `Display`).
pub open spec fn poseidon_error_text(e: PoseidonError) -> Seq<char> {
    match e {
        PoseidonError::NegativeBalance(v) => "balance must be non-negative, got "@ + decimal_text(v),
        PoseidonError::BalanceOverflow(v) => "balance conversion overflow for "@ + decimal_text(v),
    }
}

impl PoseidonError {
    /// The balance the error is about.
    pub open spec fn balance(&self) -> Decimal {
        match self {
            PoseidonError::NegativeBalance(v) => *v,
            PoseidonError::BalanceOverflow(v) => *v,
        }
    }

    /// The error as text.
    pub fn message(&self) -> (r: String)
        requires
            self.balance().wf(),
        ensures
            r@ == poseidon_error_text(*self),
    {
        match self {
            PoseidonError::NegativeBalance(v) => {
                let mut r = String::from_str("balance must be non-negative, got ");
                let t = v.to_string();
                r.append(t.as_str());
                r
            },
            PoseidonError::BalanceOverflow(v) => {
                let mut r = String::from_str("balance conversion overflow for ");
                let t = v.to_string();
                r.append(t.as_str());
                r
            },
        }
    }
}

/// The order of the BN254 scalar field (`FrParameters::MODULUS`).
pub open spec fn field_order() -> nat {
    21888242871839275222246405745257275088548364400416034343698204186575808495617nat
}

/// The integer that little-endian bytes spell.
pub open spec fn le_value(b: Seq<u8>) -> nat
    decreases b.len(),
{
    if b.len() == 0 {
        0
    } else {
        b[0] as nat + 256 * le_value(b.drop_first())
    }
}

/// The `n` little-endian bytes of `v` (its low `8n` bits).
pub open spec fn le_bytes_of(v: nat, n: nat) -> Seq<u8>
    decreases n,
{
    if n == 0 {
        Seq::empty()
    } else {
        seq![(v % 256) as u8] + le_bytes_of(v / 256, (n - 1) as nat)
    }
}

/// The bytes of the field element one above the element that `b` spells modulo
/// the field's order.
pub open spec fn field_plus_one(b: Seq<u8>) -> Seq<u8> {
    le_bytes_of((le_value(b) % field_order() + 1) % field_order(), 32)
}

/// The canonical bytes (`into_repr().to_bytes_le()`) of field elements drawn from
/// `StdRng::from_seed(seed)`: first `count` draws of `UniformRand::rand`, then the
/// rows of `PoseidonParameters::random_ark(rounds, ..)` from the same generator.
/// The generator's output is fixed by its seed.
pub uninterp spec fn seeded_field_draws(seed: Seq<u8>, count: usize, rounds: u32) -> (
    Seq<Seq<u8>>,
    Seq<Seq<Seq<u8>>>,
);

/// `StdRng::from_seed`, then `count` calls of `Fr::rand` and one of
/// `PoseidonParameters::random_ark(rounds, ..)` on that generator, every element
/// as `into_repr().to_bytes_le()` (32 bytes: four 64-bit limbs); `random_ark`
/// pushes three elements per round.
#[verifier::external_body]
fn seeded_draws(seed: [u8; 32], count: usize, rounds: u32) -> (r: (Vec<Vec<u8>>, Vec<Vec<Vec<u8>>>))
    ensures
        (r.0.deep_view(), r.1.deep_view()) == seeded_field_draws(seed@, count, rounds),
        r.0@.len() == count,
        forall|i: int| 0 <= i < r.0@.len() ==> (#[trigger] r.0@[i])@.len() == 32,
        r.1@.len() == rounds,
        forall|i: int| 0 <= i < r.1@.len() ==> (#[trigger] r.1@[i])@.len() == STATE_WIDTH,
        forall|i: int, j: int|
            0 <= i < r.1@.len() && 0 <= j < r.1@[i]@.len() ==> (#[trigger] r.1@[i]@[j])@.len() == 32,
{
    let mut rng = StdRng::from_seed(seed);
    let draws = (0..count).map(|_| Fr::rand(&mut rng).into_repr().to_bytes_le()).collect();
    let ark = PoseidonParameters::<Fr>::random_ark(rounds, &mut rng);
    (draws, ark.iter().map(|row| row.iter().map(|x| x.into_repr().to_bytes_le()).collect()).collect())
}

/// `Fr + Fr::one()` on the element that `from_le_bytes_mod_order` reads from the
/// bytes, as `into_repr().to_bytes_le()`: the canonical bytes of that element
/// plus one, modulo the field's order.
#[verifier::external_body]
fn add_one(b: &FieldBytes) -> (r: Vec<u8>)
    ensures
        r@ == field_plus_one(b@),
{
    (Fr::from_le_bytes_mod_order(b) + Fr::one()).into_repr().to_bytes_le()
}

/// A field element as it is stored and absorbed here: the 32 little-endian bytes
/// of its canonical integer.
pub type FieldBytes = [u8; 32];

/// The Poseidon parameters as plain data: round counts, S-box exponent, the MDS
/// matrix and the round constants (one row per round), each field element as its
/// [`FieldBytes`].
pub struct PoseidonConfig {
    pub full_rounds: u32,
    pub partial_rounds: u32,
    pub alpha: u64,
    pub mds: Vec<Vec<FieldBytes>>,
    pub ark: Vec<Vec<FieldBytes>>,
}

impl PoseidonConfig {
    /// The shapes the sponge relies on: a 3×3 MDS matrix and one row of three
    /// round constants per round.
    pub open spec fn wf(&self) -> bool {
        &&& self.full_rounds + self.partial_rounds <= u32::MAX
        &&& self.ark@.len() == self.full_rounds + self.partial_rounds
        &&& forall|i: int| 0 <= i < self.ark@.len() ==> (#[trigger] self.ark@[i])@.len() == STATE_WIDTH
        &&& self.mds@.len() == STATE_WIDTH
        &&& forall|i: int| 0 <= i < self.mds@.len() ==> (#[trigger] self.mds@[i])@.len() == STATE_WIDTH
    }

    /// The parameters every hash here uses: 8 full and 57 partial rounds, S-box
    /// exponent 5, and the MDS matrix and round constants drawn from the seeded
    /// generator.
    pub open spec fn is_seeded(&self) -> bool {
        &&& self.wf()
        &&& self.full_rounds == FULL_ROUNDS
        &&& self.partial_rounds == PARTIAL_ROUNDS
        &&& self.alpha == POSEIDON_ALPHA
        &&& self.mds.deep_view() == seeded_mds()
        &&& self.ark.deep_view() == seeded_ark()
    }
}

/// The little-endian bytes of the element `ark_sponge`'s Poseidon sponge squeezes
/// first, for the sponge with the given round counts, S-box exponent, MDS matrix
/// and round constants after absorbing `inputs` in order; every 32-byte value is
/// read as a little-endian integer modulo the field's order.
pub uninterp spec fn poseidon_squeeze(
    full_rounds: u32,
    partial_rounds: u32,
    alpha: u64,
    mds: Seq<Seq<Seq<u8>>>,
    ark: Seq<Seq<Seq<u8>>>,
    inputs: Seq<Seq<u8>>,
) -> Seq<u8>;

/// One run of `ark_sponge`'s Poseidon sponge: every byte string of the
/// configuration and the inputs is turned into a field element by
/// `PrimeField::from_le_bytes_mod_order`, `PoseidonParameters::new` builds the
/// parameters (its shape assertions hold by `wf`), `PoseidonSponge::new` starts
/// the sponge, `absorb` takes the inputs in order, and the first element of
/// `squeeze_field_elements(1)` comes back as `into_repr().to_bytes_le()`. The
/// sponge's result is a function of these values alone.
#[verifier::external_body]
fn sponge_squeeze(config: &PoseidonConfig, inputs: &Vec<FieldBytes>) -> (r: Vec<u8>)
    requires
        config.wf(),
    ensures
        r@ == poseidon_squeeze(
            config.full_rounds,
            config.partial_rounds,
            config.alpha,
            config.mds.deep_view(),
            config.ark.deep_view(),
            inputs.deep_view(),
        ),
{
    let fe = |b: &[u8; 32]| Fr::from_le_bytes_mod_order(b);
    let mds = config.mds.iter().map(|row| row.iter().map(fe).collect()).collect();
    let ark = config.ark.iter().map(|row| row.iter().map(fe).collect()).collect();
    let params = PoseidonParameters::new(config.full_rounds, config.partial_rounds, config.alpha, mds, ark);
    let mut sponge = PoseidonSponge::<Fr>::new(&params);
    sponge.absorb(&inputs.iter().map(fe).collect::<Vec<Fr>>());
    sponge.squeeze_field_elements::<Fr>(1)[0].into_repr().to_bytes_le()
}

/// The first 32 of the bytes, zero-padded.
pub open spec fn hash_bytes(bytes: Seq<u8>) -> Seq<u8> {
    Seq::new(
        32,
        |i: int|
            if i < bytes.len() {
                bytes[i]
            } else {
                0u8
            },
    )
}

/// The first 32 little-endian bytes of a field element's canonical integer,
/// zero-padded.
pub fn first_32_bytes(bytes: &Vec<u8>) -> (out: [u8; 32])
    ensures
        out@ == hash_bytes(bytes@),
{
    let mut out = [0u8; 32];
    let copy_len = if bytes.len() < 32 {
        bytes.len()
    } else {
        32
    };
    let mut i: usize = 0;
    while i < copy_len
        invariant
            copy_len <= 32,
            copy_len <= bytes@.len(),
            copy_len == bytes@.len() || copy_len == 32,
            i <= copy_len,
            out@.len() == 32,
            forall|k: int| 0 <= k < i ==> out@[k] == bytes@[k],
            forall|k: int| i <= k < 32 ==> out@[k] == 0u8,
        decreases copy_len - i,
    {
        out[i] = bytes[i];
        i = i + 1;
    }
    assert(out@ =~= hash_bytes(bytes@));
    out
}

/// The 32 little-endian bytes of an integer below `2^128`.
pub open spec fn integer_bytes(x: u128) -> Seq<u8> {
    Seq::new(
        32,
        |i: int|
            if i < 16 {
                ((x >> ((8 * i) as u128)) & 0xffu128) as u8
            } else {
                0u8
            },
    )
}

/// The deep view of a byte array is its view.
proof fn lemma_bytes_deep_view(a: FieldBytes)
    ensures
        a.deep_view() == a@,
{
    assert(a.deep_view() =~= a@);
}

/// An integer as a field element's bytes (see [`integer_bytes`]).
pub fn u128_field_bytes(x: u128) -> (out: FieldBytes)
    ensures
        out@ == integer_bytes(x),
{
    let mut out = [0u8; 32];
    let mut i: usize = 0;
    while i < 16
        invariant
            i <= 16,
            out@.len() == 32,
            forall|k: int| 0 <= k < i ==> out@[k] == ((x >> ((8 * k) as u128)) & 0xffu128) as u8,
            forall|k: int| 16 <= k < 32 ==> out@[k] == 0u8,
        decreases 16 - i,
    {
        out[i] = ((x >> ((8 * i) as u128)) & 0xffu128) as u8;
        i = i + 1;
    }
    assert(out@ =~= integer_bytes(x));
    out
}

/// The seed of the parameter generator: 32 bytes of 42.
pub open spec fn parameter_seed() -> Seq<u8> {
    Seq::new(32, |_i: int| PARAM_SEED_BYTE)
}

/// The field elements drawn for the parameters: nine for the MDS matrix, then the
/// round constants of every round.
pub open spec fn parameter_draws() -> (Seq<Seq<u8>>, Seq<Seq<Seq<u8>>>) {
    seeded_field_draws(parameter_seed(), 9, (FULL_ROUNDS + PARTIAL_ROUNDS) as u32)
}

/// The MDS matrix: the first nine draws row by row, with one added on the
/// diagonal.
pub open spec fn seeded_mds() -> Seq<Seq<Seq<u8>>> {
    let d = parameter_draws().0;
    Seq::new(
        STATE_WIDTH as nat,
        |i: int|
            Seq::new(
                STATE_WIDTH as nat,
                |j: int|
                    if i == j {
                        field_plus_one(d[3 * i + j])
                    } else {
                        d[3 * i + j]
                    },
            ),
    )
}

/// The round constants: the rows drawn after the MDS matrix.
pub open spec fn seeded_ark() -> Seq<Seq<Seq<u8>>> {
    parameter_draws().1
}

/// The bytes of `le_bytes_of` have the asked length.
proof fn lemma_le_bytes_len(v: nat, n: nat)
    ensures
        le_bytes_of(v, n).len() == n,
    decreases n,
{
    if n > 0 {
        lemma_le_bytes_len(v / 256, (n - 1) as nat);
    }
}

/// Thirty-two bytes are their own first thirty-two.
proof fn lemma_hash_bytes_of_32(b: Seq<u8>)
    requires
        b.len() == 32,
    ensures
        hash_bytes(b) == b,
{
    assert(hash_bytes(b) =~= b);
}

/// A 3×3 MDS matrix from nine draws, row by row, with one added on the diagonal.
fn build_deterministic_mds(draws: &Vec<Vec<u8>>) -> (mds: Vec<Vec<FieldBytes>>)
    requires
        draws@.len() >= 9,
        forall|i: int| 0 <= i < draws@.len() ==> (#[trigger] draws@[i])@.len() == 32,
    ensures
        mds@.len() == STATE_WIDTH,
        forall|i: int| 0 <= i < mds@.len() ==> (#[trigger] mds@[i])@.len() == STATE_WIDTH,
        forall|i: int, j: int|
            0 <= i < STATE_WIDTH && 0 <= j < STATE_WIDTH ==> (#[trigger] mds@[i]@[j])@ == (if i == j {
                field_plus_one(draws@[3 * i + j]@)
            } else {
                draws@[3 * i + j]@
            }),
{
    let mut mds: Vec<Vec<FieldBytes>> = Vec::new();
    let mut row_idx: usize = 0;
    while row_idx < STATE_WIDTH
        invariant
            draws@.len() >= 9,
            forall|i: int| 0 <= i < draws@.len() ==> (#[trigger] draws@[i])@.len() == 32,
            row_idx <= STATE_WIDTH,
            mds@.len() == row_idx,
            forall|i: int| 0 <= i < mds@.len() ==> (#[trigger] mds@[i])@.len() == STATE_WIDTH,
            forall|i: int, j: int|
                0 <= i < row_idx && 0 <= j < STATE_WIDTH ==> (#[trigger] mds@[i]@[j])@ == (if i == j {
                    field_plus_one(draws@[3 * i + j]@)
                } else {
                    draws@[3 * i + j]@
                }),
        decreases STATE_WIDTH - row_idx,
    {
        let mut row: Vec<FieldBytes> = Vec::new();
        let mut col: usize = 0;
        while col < STATE_WIDTH
            invariant
                draws@.len() >= 9,
                forall|i: int| 0 <= i < draws@.len() ==> (#[trigger] draws@[i])@.len() == 32,
                row_idx < STATE_WIDTH,
                col <= STATE_WIDTH,
                row@.len() == col,
                forall|j: int|
                    0 <= j < col ==> (#[trigger] row@[j])@ == (if row_idx == j {
                        field_plus_one(draws@[3 * row_idx + j]@)
                    } else {
                        draws@[3 * row_idx + j]@
                    }),
            decreases STATE_WIDTH - col,
        {
            let value = first_32_bytes(&draws[3 * row_idx + col]);
            proof {
                lemma_hash_bytes_of_32(draws@[3 * row_idx + col]@);
            }
            if col == row_idx {
                let bumped = add_one(&value);
                proof {
                    lemma_le_bytes_len((le_value(value@) % field_order() + 1) % field_order(), 32);
                    lemma_hash_bytes_of_32(bumped@);
                }
                row.push(first_32_bytes(&bumped));
            } else {
                row.push(value);
            }
            col = col + 1;
        }
        mds.push(row);
        row_idx = row_idx + 1;
    }
    mds
}

/// Round constants as byte arrays, row by row.
fn round_constant_bytes(ark: &Vec<Vec<Vec<u8>>>) -> (out: Vec<Vec<FieldBytes>>)
    requires
        forall|i: int| 0 <= i < ark@.len() ==> (#[trigger] ark@[i])@.len() == STATE_WIDTH,
        forall|i: int, j: int| 0 <= i < ark@.len() && 0 <= j < ark@[i]@.len() ==> (#[trigger] ark@[i]@[j])@.len() == 32,
    ensures
        out@.len() == ark@.len(),
        forall|i: int| 0 <= i < out@.len() ==> (#[trigger] out@[i])@.len() == STATE_WIDTH,
        out.deep_view() == ark.deep_view(),
{
    let mut out: Vec<Vec<FieldBytes>> = Vec::new();
    let mut i: usize = 0;
    while i < ark.len()
        invariant
            forall|k: int| 0 <= k < ark@.len() ==> (#[trigger] ark@[k])@.len() == STATE_WIDTH,
            forall|k: int, j: int| 0 <= k < ark@.len() && 0 <= j < ark@[k]@.len() ==> (#[trigger] ark@[k]@[j])@.len() == 32,
            i <= ark@.len(),
            out@.len() == i,
            forall|k: int| 0 <= k < out@.len() ==> (#[trigger] out@[k])@.len() == STATE_WIDTH,
            forall|k: int| 0 <= k < out@.len() ==> (#[trigger] out@[k]).deep_view() == ark@[k].deep_view(),
        decreases ark@.len() - i,
    {
        let src = &ark[i];
        let mut row: Vec<FieldBytes> = Vec::new();
        let mut j: usize = 0;
        while j < src.len()
            invariant
                forall|k: int| 0 <= k < src@.len() ==> (#[trigger] src@[k])@.len() == 32,
                j <= src@.len(),
                row@.len() == j,
                forall|k: int| 0 <= k < j ==> (#[trigger] row@[k])@ == src@[k]@,
            decreases src@.len() - j,
        {
            let b = first_32_bytes(&src[j]);
            proof {
                lemma_hash_bytes_of_32(src@[j as int]@);
            }
            row.push(b);
            j = j + 1;
        }
        proof {
            assert forall|k: int| 0 <= k < row@.len() implies (#[trigger] row@[k]).deep_view() == src@[k].deep_view() by {
                lemma_bytes_deep_view(row@[k]);
                assert(src@[k].deep_view() =~= src@[k]@);
            }
            assert(row.deep_view() =~= src.deep_view());
        }
        out.push(row);
        i = i + 1;
    }
    proof {
        assert(out.deep_view() =~= ark.deep_view());
    }
    out
}

/// The Poseidon parameters of every hash here: 8 full and 57 partial rounds,
/// S-box exponent 5, and the MDS matrix and round constants drawn, in that order,
/// from a generator seeded with 32 bytes of 42.
pub fn poseidon_parameters() -> (c: PoseidonConfig)
    ensures
        c.is_seeded(),
{
    let seed = [PARAM_SEED_BYTE; 32];
    proof {
        assert(seed@ =~= parameter_seed());
    }
    let total_rounds: u32 = FULL_ROUNDS + PARTIAL_ROUNDS;
    let (draws, ark) = seeded_draws(seed, 9, total_rounds);
    let mds = build_deterministic_mds(&draws);
    let ark = round_constant_bytes(&ark);
    let c = PoseidonConfig { full_rounds: FULL_ROUNDS, partial_rounds: PARTIAL_ROUNDS, alpha: POSEIDON_ALPHA, mds, ark };
    proof {
        let d = parameter_draws().0;
        assert(draws.deep_view() == d);
        assert forall|i: int| 0 <= i < STATE_WIDTH implies (#[trigger] c.mds@[i]).deep_view() == seeded_mds()[i] by {
            assert forall|j: int| 0 <= j < STATE_WIDTH implies (#[trigger] c.mds@[i].deep_view()[j]) == seeded_mds()[i][j] by {
                lemma_bytes_deep_view(c.mds@[i]@[j]);
                assert(d[3 * i + j] == draws@[3 * i + j].deep_view());
                assert(draws@[3 * i + j].deep_view() =~= draws@[3 * i + j]@);
            }
            assert(c.mds@[i].deep_view() =~= seeded_mds()[i]);
        }
        assert(c.mds.deep_view() =~= seeded_mds());
    }
    c
}

/// What a non-negative balance enters the hash as: the mantissa `rust_decimal`
/// leaves after rescaling it to eight fractional digits.
pub open spec fn scaled_balance(value: Decimal) -> u128 {
    decimal_rescaled(value, BALANCE_SCALE).mantissa as u128
}

/// The balance as an integer count of `10^-8`; negative balances are refused.
pub fn balance_to_scaled(value: &Decimal) -> (r: Result<u128, PoseidonError>)
    requires
        value.wf(),
    ensures
        match r {
            Ok(v) => !value.is_negative() && v == scaled_balance(*value),
            Err(e) => value.is_negative() && e == PoseidonError::NegativeBalance(*value),
        },
        !value.is_negative() && value.scale <= BALANCE_SCALE && fits96(value.mantissa_at(BALANCE_SCALE as nat))
            ==> scaled_balance(*value) == value.mantissa_at(BALANCE_SCALE as nat),
{
    if value.is_sign_negative() {
        return Err(PoseidonError::NegativeBalance(*value));
    }
    let scaled = rescaled(value, BALANCE_SCALE);
    let mantissa = scaled.mantissa();
    if mantissa < 0 {
        return Err(PoseidonError::NegativeBalance(*value));
    }
    Ok(mantissa as u128)
}

/// The balance as a field element's bytes (see [`balance_to_scaled`]).
fn decimal_to_field(value: &Decimal) -> (r: Result<FieldBytes, PoseidonError>)
    requires
        value.wf(),
    ensures
        match r {
            Ok(b) => !value.is_negative() && b@ == integer_bytes(scaled_balance(*value)),
            Err(e) => value.is_negative() && e == PoseidonError::NegativeBalance(*value),
        },
        !value.is_negative() && value.scale <= BALANCE_SCALE && fits96(value.mantissa_at(BALANCE_SCALE as nat))
            ==> scaled_balance(*value) == value.mantissa_at(BALANCE_SCALE as nat),
{
    match balance_to_scaled(value) {
        Ok(v) => Ok(u128_field_bytes(v)),
        Err(e) => Err(e),
    }
}

/// The hash of a leaf under the given parameters: the sponge over the user id
/// and the scaled balance.
pub open spec fn leaf_digest(c: PoseidonConfig, user_id: u64, balance: Decimal) -> Seq<u8> {
    hash_bytes(
        poseidon_squeeze(
            c.full_rounds,
            c.partial_rounds,
            c.alpha,
            c.mds.deep_view(),
            c.ark.deep_view(),
            seq![integer_bytes(user_id as u128), integer_bytes(scaled_balance(balance))],
        ),
    )
}

/// The hash of an internal node under the given parameters: the sponge over both
/// child hashes and both scaled child balances.
pub open spec fn internal_digest(
    c: PoseidonConfig,
    left_hash: Seq<u8>,
    right_hash: Seq<u8>,
    left_balance: Decimal,
    right_balance: Decimal,
) -> Seq<u8> {
    hash_bytes(
        poseidon_squeeze(
            c.full_rounds,
            c.partial_rounds,
            c.alpha,
            c.mds.deep_view(),
            c.ark.deep_view(),
            seq![
                left_hash,
                right_hash,
                integer_bytes(scaled_balance(left_balance)),
                integer_bytes(scaled_balance(right_balance)),
            ],
        ),
    )
}

/// The hash of a leaf under the seeded parameters.
pub open spec fn seeded_leaf_digest(user_id: u64, balance: Decimal) -> Seq<u8> {
    hash_bytes(
        poseidon_squeeze(
            FULL_ROUNDS,
            PARTIAL_ROUNDS,
            POSEIDON_ALPHA,
            seeded_mds(),
            seeded_ark(),
            seq![integer_bytes(user_id as u128), integer_bytes(scaled_balance(balance))],
        ),
    )
}

/// The hash of an internal node under the seeded parameters.
pub open spec fn seeded_internal_digest(
    left_hash: Seq<u8>,
    right_hash: Seq<u8>,
    left_balance: Decimal,
    right_balance: Decimal,
) -> Seq<u8> {
    hash_bytes(
        poseidon_squeeze(
            FULL_ROUNDS,
            PARTIAL_ROUNDS,
            POSEIDON_ALPHA,
            seeded_mds(),
            seeded_ark(),
            seq![
                left_hash,
                right_hash,
                integer_bytes(scaled_balance(left_balance)),
                integer_bytes(scaled_balance(right_balance)),
            ],
        ),
    )
}

/// Poseidon hash of a leaf under `config`. Fails only on a negative balance.
pub fn poseidon_leaf_hash_with(config: &PoseidonConfig, user_id: u64, balance: &Decimal) -> (r: Result<
    [u8; 32],
    PoseidonError,
>)
    requires
        config.wf(),
        balance.wf(),
    ensures
        match r {
            Ok(h) => !balance.is_negative() && h@ == leaf_digest(*config, user_id, *balance),
            Err(e) => balance.is_negative() && e == PoseidonError::NegativeBalance(*balance),
        },
        !balance.is_negative() && balance.scale <= BALANCE_SCALE && fits96(balance.mantissa_at(BALANCE_SCALE as nat))
            ==> scaled_balance(*balance) == balance.mantissa_at(BALANCE_SCALE as nat),
{
    let mut inputs: Vec<FieldBytes> = Vec::new();
    inputs.push(u128_field_bytes(user_id as u128));
    let b = match decimal_to_field(balance) {
        Ok(f) => f,
        Err(e) => {
            return Err(e);
        },
    };
    inputs.push(b);
    proof {
        lemma_bytes_deep_view(inputs@[0]);
        lemma_bytes_deep_view(inputs@[1]);
        assert(inputs.deep_view() =~= seq![integer_bytes(user_id as u128), integer_bytes(scaled_balance(*balance))]);
    }
    let digest = sponge_squeeze(config, &inputs);
    Ok(first_32_bytes(&digest))
}

/// Poseidon hash of a leaf: the user id and the scaled balance, under the seeded
/// parameters. Fails only on a negative balance.
pub fn poseidon_leaf_hash(user_id: u64, balance: &Decimal) -> (r: Result<[u8; 32], PoseidonError>)
    requires
        balance.wf(),
    ensures
        match r {
            Ok(h) => !balance.is_negative() && h@ == seeded_leaf_digest(user_id, *balance),
            Err(e) => balance.is_negative() && e == PoseidonError::NegativeBalance(*balance),
        },
        !balance.is_negative() && balance.scale <= BALANCE_SCALE && fits96(balance.mantissa_at(BALANCE_SCALE as nat))
            ==> scaled_balance(*balance) == balance.mantissa_at(BALANCE_SCALE as nat),
{
    let config = poseidon_parameters();
    poseidon_leaf_hash_with(&config, user_id, balance)
}

/// Poseidon hash of an internal node under `config`. Fails only on a negative
/// balance, the left one reported first.
pub fn poseidon_internal_hash_with(
    config: &PoseidonConfig,
    left_hash: &[u8; 32],
    right_hash: &[u8; 32],
    left_balance: &Decimal,
    right_balance: &Decimal,
) -> (r: Result<[u8; 32], PoseidonError>)
    requires
        config.wf(),
        left_balance.wf(),
        right_balance.wf(),
    ensures
        match r {
            Ok(h) => !left_balance.is_negative() && !right_balance.is_negative() && h@ == internal_digest(
                *config,
                left_hash@,
                right_hash@,
                *left_balance,
                *right_balance,
            ),
            Err(e) => e == PoseidonError::NegativeBalance(
                if left_balance.is_negative() {
                    *left_balance
                } else {
                    *right_balance
                },
            ) && (left_balance.is_negative() || right_balance.is_negative()),
        },
{
    let mut inputs: Vec<FieldBytes> = Vec::new();
    inputs.push(*left_hash);
    inputs.push(*right_hash);
    let l = match decimal_to_field(left_balance) {
        Ok(f) => f,
        Err(e) => {
            return Err(e);
        },
    };
    inputs.push(l);
    let r = match decimal_to_field(right_balance) {
        Ok(f) => f,
        Err(e) => {
            return Err(e);
        },
    };
    inputs.push(r);
    proof {
        lemma_bytes_deep_view(inputs@[0]);
        lemma_bytes_deep_view(inputs@[1]);
        lemma_bytes_deep_view(inputs@[2]);
        lemma_bytes_deep_view(inputs@[3]);
        assert(inputs.deep_view() =~= seq![
            left_hash@,
            right_hash@,
            integer_bytes(scaled_balance(*left_balance)),
            integer_bytes(scaled_balance(*right_balance)),
        ]);
    }
    let digest = sponge_squeeze(config, &inputs);
    Ok(first_32_bytes(&digest))
}

/// Poseidon hash of an internal node: both child hashes (read as field elements)
/// and both child balances, under the seeded parameters. Fails only on a negative
/// balance, the left one reported first.
pub fn poseidon_internal_hash(
    left_hash: &[u8; 32],
    right_hash: &[u8; 32],
    left_balance: &Decimal,
    right_balance: &Decimal,
) -> (r: Result<[u8; 32], PoseidonError>)
    requires
        left_balance.wf(),
        right_balance.wf(),
    ensures
        match r {
            Ok(h) => !left_balance.is_negative() && !right_balance.is_negative() && h@ == seeded_internal_digest(
                left_hash@,
                right_hash@,
                *left_balance,
                *right_balance,
            ),
            Err(e) => e == PoseidonError::NegativeBalance(
                if left_balance.is_negative() {
                    *left_balance
                } else {
                    *right_balance
                },
            ) && (left_balance.is_negative() || right_balance.is_negative()),
        },
{
    let config = poseidon_parameters();
    poseidon_internal_hash_with(&config, left_hash, right_hash, left_balance, right_balance)
}

} // verus!
