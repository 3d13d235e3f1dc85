//! Unsigned fixed-point scalars with eighteen decimals, held as their inner
//! `u128` representation, and the conversions between engine amounts, ledger
//! balances and the integers shown by the read views.
use sp_arithmetic::traits::{CheckedDiv, CheckedMul};
use sp_arithmetic::FixedU128;
use vstd::prelude::*;

verus! {

use vstd::arithmetic::div_mod::{lemma_div_denominator, lemma_div_multiples_vanish};

/// Inner representation of the fixed-point value one.
pub const ACCURACY: u128 = 1_000_000_000_000_000_000;

/// Ledger balances carry this many more decimals than engine amounts.
pub const LEDGER_SCALE: u128 = 1_000_000_000_000;

/// Engine amounts are divided by this factor in the read views.
pub const RPC_SCALE: u128 = 1_000_000;

/// The exact product of two fixed-point values, rounded down, as an inner value.
pub open spec fn mul_inner(a: int, b: int) -> int {
    a * b / (ACCURACY as int)
}

/// The exact quotient of two fixed-point values, rounded down, as an inner value.
pub open spec fn div_inner(a: int, b: int) -> int {
    a * (ACCURACY as int) / b
}

/// The fixed-point value of the integer `n`, saturated at the largest value.
pub open spec fn from_integer_inner(n: int) -> int {
    if n * (ACCURACY as int) <= u128::MAX {
        n * (ACCURACY as int)
    } else {
        u128::MAX as int
    }
}

/// Relies on `FixedU128::checked_mul`: the product of the inner values divided
/// by the accuracy, rounded down, or `None` when that exceeds `u128`.
#[verifier::external_body]
pub(crate) fn fixed_checked_mul(a: u128, b: u128) -> (r: Option<u128>)
    ensures
        r == (if mul_inner(a as int, b as int) <= u128::MAX {
            Some(mul_inner(a as int, b as int) as u128)
        } else {
            None::<u128>
        }),
{
    match FixedU128::from_inner(a).checked_mul(&FixedU128::from_inner(b)) {
        Some(x) => Some(x.into_inner()),
        None => None,
    }
}

/// Relies on `FixedU128::checked_div`: `None` for a zero divisor, else the
/// first inner value times the accuracy divided by the second, rounded down,
/// or `None` when that exceeds `u128`.
#[verifier::external_body]
pub(crate) fn fixed_checked_div(a: u128, b: u128) -> (r: Option<u128>)
    ensures
        r == (if b != 0 && div_inner(a as int, b as int) <= u128::MAX {
            Some(div_inner(a as int, b as int) as u128)
        } else {
            None::<u128>
        }),
{
    match FixedU128::from_inner(a).checked_div(&FixedU128::from_inner(b)) {
        Some(x) => Some(x.into_inner()),
        None => None,
    }
}

/// The fixed-point value of an integer, saturating at the largest value.
pub fn from_integer(n: u128) -> (r: u128)
    ensures
        r as int == from_integer_inner(n as int),
{
    match n.checked_mul(ACCURACY) {
        Some(v) => v,
        None => u128::MAX,
    }
}

/// Product of two engine amounts.
pub fn checked_mul(a: u128, b: u128) -> (r: Option<u128>)
    ensures
        r == (if mul_inner(a as int, b as int) <= u128::MAX {
            Some(mul_inner(a as int, b as int) as u128)
        } else {
            None::<u128>
        }),
{
    fixed_checked_mul(a, b)
}

/// Quotient of two engine amounts; `None` for a zero divisor.
pub fn checked_div(a: u128, b: u128) -> (r: Option<u128>)
    ensures
        r == (if b != 0 && div_inner(a as int, b as int) <= u128::MAX {
            Some(div_inner(a as int, b as int) as u128)
        } else {
            None::<u128>
        }),
{
    fixed_checked_div(a, b)
}

/// The ledger balance that stands for an engine amount: its inner value
/// divided by `RPC_SCALE`, rounded down.
pub open spec fn balance_of_fixed(x: int) -> int {
    x / (RPC_SCALE as int)
}

/// The engine amount that stands for a ledger balance.
pub open spec fn fixed_of_balance(b: int) -> int {
    from_integer_inner(b) / (LEDGER_SCALE as int)
}

proof fn lemma_scale_down(x: int)
    requires
        0 <= x,
    ensures
        div_inner(x, (RPC_SCALE * ACCURACY) as int) == x / (RPC_SCALE as int),
{
    let a = ACCURACY as int;
    let s = RPC_SCALE as int;
    assert(x * a == a * x) by (nonlinear_arith);
    assert((RPC_SCALE * ACCURACY) as int == a * s);
    lemma_div_denominator(x * a, a, s);
    lemma_div_multiples_vanish(x, a);
}

proof fn lemma_scale_ledger(x: int)
    requires
        0 <= x,
    ensures
        div_inner(x, (LEDGER_SCALE * ACCURACY) as int) == x / (LEDGER_SCALE as int),
{
    let a = ACCURACY as int;
    let s = LEDGER_SCALE as int;
    assert(x * a == a * x) by (nonlinear_arith);
    assert((LEDGER_SCALE * ACCURACY) as int == a * s);
    lemma_div_denominator(x * a, a, s);
    lemma_div_multiples_vanish(x, a);
}

/// Converts an engine amount into the ledger balance it stands for.
pub fn convert_fixed_u128_to_balance(x: u128) -> (r: u128)
    ensures
        r as int == balance_of_fixed(x as int),
{
    let d = from_integer(RPC_SCALE);
    assert(d == RPC_SCALE * ACCURACY);
    proof {
        lemma_scale_down(x as int);
    }
    match fixed_checked_div(x, d) {
        Some(v) => v,
        None => 0,
    }
}

/// Converts a ledger balance into an engine amount.
pub fn convert_balance_to_fixed_u128(b: u128) -> (r: u128)
    ensures
        r as int == fixed_of_balance(b as int),
        b as int * (ACCURACY as int) <= u128::MAX ==> r as int == b as int * (RPC_SCALE as int),
{
    let x = from_integer(b);
    let d = from_integer(LEDGER_SCALE);
    assert(d == LEDGER_SCALE * ACCURACY);
    proof {
        lemma_scale_ledger(x as int);
        if b as int * (ACCURACY as int) <= u128::MAX {
            let bi = b as int;
            assert(bi * (ACCURACY as int) == (bi * (RPC_SCALE as int)) * (LEDGER_SCALE as int))
                by (nonlinear_arith);
            vstd::arithmetic::div_mod::lemma_div_by_multiple(bi * (RPC_SCALE as int), LEDGER_SCALE as int);
        }
    }
    match fixed_checked_div(x, d) {
        Some(v) => v,
        None => 0,
    }
}

} // verus!
