//! The inputs of the circuit that proves one parent relation of the Merkle sum
//! tree (parent hash and balance from the two children), and the carry bits its
//! 128-bit adder constraints are witnessed with. The constraints themselves are
//! generated with arkworks outside this library.

use vstd::prelude::*;

use vstd::arithmetic::power2::{lemma_pow2_adds, lemma_pow2_pos, lemma_pow2_unfold, lemma2_to64, pow2};

use vstd::string::*;

use crate::decimal::{decimal_text, rescaled, Decimal};
use crate::poseidon::{scaled_balance, BALANCE_SCALE};
use crate::tree::HashBytes;

verus! {

/// Why a balance cannot enter the circuit.
#[derive(Debug, Clone, PartialEq, Eq)]
pub enum CircuitInputError {
    NegativeBalance(Decimal),
    BalanceConversionOverflow(Decimal),
}

/// The text of a circuit input error (its `Display`).
pub open spec fn circuit_error_text(e: CircuitInputError) -> Seq<char> {
    match e {
        CircuitInputError::NegativeBalance(v) => "balance must be non-negative, got "@ + decimal_text(v),
        CircuitInputError::BalanceConversionOverflow(v) => "balance conversion overflow for "@ + decimal_text(v),
    }
}

impl CircuitInputError {
    /// The balance the error is about.
    pub open spec fn balance(&self) -> Decimal {
        match self {
            CircuitInputError::NegativeBalance(v) => *v,
            CircuitInputError::BalanceConversionOverflow(v) => *v,
        }
    }

    /// The error as text.
    pub fn message(&self) -> (r: String)
        requires
            self.balance().wf(),
        ensures
            r@ == circuit_error_text(*self),
    {
        match self {
            CircuitInputError::NegativeBalance(v) => {
                let mut r = String::from_str("balance must be non-negative, got ");
                let t = v.to_string();
                r.append(t.as_str());
                r
            },
            CircuitInputError::BalanceConversionOverflow(v) => {
                let mut r = String::from_str("balance conversion overflow for ");
                let t = v.to_string();
                r.append(t.as_str());
                r
            },
        }
    }
}

/// The witness of one parent relation: the three hashes, and the three balances
/// as integer counts of `10^-8`.
#[derive(Debug, Clone)]
pub struct MerkleNodeRelationCircuit {
    pub left_hash: HashBytes,
    pub right_hash: HashBytes,
    pub parent_hash: HashBytes,
    pub left_balance_scaled: u128,
    pub right_balance_scaled: u128,
    pub parent_balance_scaled: u128,
}

/// The balance as an integer count of `10^-8`; negative balances are refused.
pub fn decimal_to_scaled_u128(value: Decimal) -> (r: Result<u128, CircuitInputError>)
    requires
        value.wf(),
    ensures
        match r {
            Ok(v) => !value.is_negative() && v == scaled_balance(value),
            Err(e) => value.is_negative() && e == CircuitInputError::NegativeBalance(value),
        },
{
    if value.is_sign_negative() {
        return Err(CircuitInputError::NegativeBalance(value));
    }
    let scaled = rescaled(&value, BALANCE_SCALE);
    let mantissa = scaled.mantissa();
    if mantissa < 0 {
        return Err(CircuitInputError::NegativeBalance(value));
    }
    Ok(mantissa as u128)
}

impl MerkleNodeRelationCircuit {
    /// A witness from balances already scaled.
    pub fn from_scaled(
        left_hash: HashBytes,
        right_hash: HashBytes,
        parent_hash: HashBytes,
        left_balance_scaled: u128,
        right_balance_scaled: u128,
        parent_balance_scaled: u128,
    ) -> (r: Self)
        ensures
            r.left_hash == left_hash,
            r.right_hash == right_hash,
            r.parent_hash == parent_hash,
            r.left_balance_scaled == left_balance_scaled,
            r.right_balance_scaled == right_balance_scaled,
            r.parent_balance_scaled == parent_balance_scaled,
    {
        Self { left_hash, right_hash, parent_hash, left_balance_scaled, right_balance_scaled, parent_balance_scaled }
    }

    /// A witness from decimal balances, each scaled to eight fractional digits;
    /// the first negative balance (left, right, parent) is refused.
    pub fn from_decimals(
        left_hash: HashBytes,
        right_hash: HashBytes,
        parent_hash: HashBytes,
        left_balance: Decimal,
        right_balance: Decimal,
        parent_balance: Decimal,
    ) -> (r: Result<Self, CircuitInputError>)
        requires
            left_balance.wf(),
            right_balance.wf(),
            parent_balance.wf(),
        ensures
            match r {
                Ok(c) => {
                    &&& !left_balance.is_negative() && !right_balance.is_negative() && !parent_balance.is_negative()
                    &&& c.left_hash == left_hash && c.right_hash == right_hash && c.parent_hash == parent_hash
                    &&& c.left_balance_scaled == scaled_balance(left_balance)
                    &&& c.right_balance_scaled == scaled_balance(right_balance)
                    &&& c.parent_balance_scaled == scaled_balance(parent_balance)
                },
                Err(e) => e == CircuitInputError::NegativeBalance(
                    if left_balance.is_negative() {
                        left_balance
                    } else if right_balance.is_negative() {
                        right_balance
                    } else {
                        parent_balance
                    },
                ) && (left_balance.is_negative() || right_balance.is_negative() || parent_balance.is_negative()),
            },
    {
        let left_balance_scaled = match decimal_to_scaled_u128(left_balance) {
            Ok(v) => v,
            Err(e) => {
                return Err(e);
            },
        };
        let right_balance_scaled = match decimal_to_scaled_u128(right_balance) {
            Ok(v) => v,
            Err(e) => {
                return Err(e);
            },
        };
        let parent_balance_scaled = match decimal_to_scaled_u128(parent_balance) {
            Ok(v) => v,
            Err(e) => {
                return Err(e);
            },
        };
        Ok(Self { left_hash, right_hash, parent_hash, left_balance_scaled, right_balance_scaled, parent_balance_scaled })
    }
}

/// Whether adding the low `i` bits of `left` and of `right` carries into bit `i`.
pub open spec fn carry_into(left: u128, right: u128, i: nat) -> bool {
    (left as nat) % pow2(i) + (right as nat) % pow2(i) >= pow2(i)
}

/// One full-adder step: the carry out of bit `i` is the majority of the two bits
/// and the carry in.
proof fn lemma_carry_step(x: u128, y: u128, i: nat, c: bool)
    requires
        i < 128,
        c == carry_into(x, y, i),
    ensures
        ({
            let a = ((x >> (i as u128)) & 1) == 1;
            let b = ((y >> (i as u128)) & 1) == 1;
            ((a && b) || (a && c) || (b && c)) == carry_into(x, y, i + 1)
        }),
{
    let p = pow2(i);
    lemma_pow2_pos(i);
    lemma_pow2_unfold(i + 1);
    assert(pow2(i + 1) == 2 * p);
    let sx = x >> (i as u128);
    let sy = y >> (i as u128);
    vstd::bits::lemma_u128_shr_is_div(x, i as u128);
    vstd::bits::lemma_u128_shr_is_div(y, i as u128);
    assert(((sx & 1) == 1) == (sx % 2 == 1)) by (bit_vector);
    assert(((sy & 1) == 1) == (sy % 2 == 1)) by (bit_vector);
    vstd::arithmetic::div_mod::lemma_mod_breakdown(x as int, p as int, 2);
    vstd::arithmetic::div_mod::lemma_mod_breakdown(y as int, p as int, 2);
    vstd::arithmetic::mul::lemma_mul_is_commutative(p as int, 2);
    let bx = (x as int / p as int) % 2;
    let by = (y as int / p as int) % 2;
    assert(bx == 0 || bx == 1);
    assert(by == 0 || by == 1);
    assert((x as int) % (p as int * 2) == p * bx + (x as int) % (p as int));
    assert((y as int) % (p as int * 2) == p * by + (y as int) % (p as int));
    if bx == 0 {
        vstd::arithmetic::mul::lemma_mul_basics(p as int);
    }
    if by == 0 {
        vstd::arithmetic::mul::lemma_mul_basics(p as int);
    }
}

/// `2^128` is one more than the largest `u128`.
proof fn lemma_pow2_128()
    ensures
        pow2(128) == u128::MAX + 1,
{
    lemma2_to64();
    lemma_pow2_adds(64, 64);
    assert(pow2(64) == 0x10000000000000000);
    assert(0x10000000000000000 * 0x10000000000000000 == 0x100000000000000000000000000000000int);
}

/// The carries of the ripple-carry addition of `left` and `right`: entry `i` is the
/// carry into bit `i`, and the last one is set exactly when the sum does not fit
/// in 128 bits.
pub fn compute_carry_bits(left: u128, right: u128) -> (carries: [bool; 129])
    ensures
        forall|i: int| 0 <= i <= 128 ==> carries@[i] == carry_into(left, right, i as nat),
        carries@[128] == (left + right > u128::MAX),
{
    let mut carries = [false; 129];
    let mut carry = false;
    let mut i: usize = 0;
    proof {
        lemma2_to64();
    }
    while i < 128
        invariant
            i <= 128,
            carries@.len() == 129,
            carry == carry_into(left, right, i as nat),
            forall|k: int| 0 <= k < i ==> carries@[k] == carry_into(left, right, k as nat),
        decreases 128 - i,
    {
        carries[i] = carry;
        let shift = i as u128;
        let a = ((left >> shift) & 1) == 1;
        let b = ((right >> shift) & 1) == 1;
        proof {
            lemma_carry_step(left, right, i as nat, carry);
        }
        carry = (a && b) || (a && carry) || (b && carry);
        i = i + 1;
    }
    carries[128] = carry;
    proof {
        lemma_pow2_128();
        assert((left as nat) % pow2(128) == left);
        assert((right as nat) % pow2(128) == right);
    }
    carries
}

} // verus!
