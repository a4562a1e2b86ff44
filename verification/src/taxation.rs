//! Transfer-tax arithmetic: given an oracle-supplied tax rate and cap, the
//! tax withheld from an amount and the amount that remains.
//!
//! The rate and cap come from the host chain's oracle; callers query them
//! and pass them in as plain values.

use crate::error::ContractError;
use crate::math::{checked_multiply_ratio, Decimal, DECIMAL_FRACTIONAL};
use vstd::arithmetic::div_mod::{lemma_div_is_ordered_by_denominator, lemma_div_multiples_vanish};
use vstd::prelude::*;

verus! {

/// The part of `amount` kept as tax: `amount - amount / (1 + rate)`,
/// truncated toward keeping less tax, and never more than `tax_cap`.
pub open spec fn spec_tax(amount: u128, tax_rate: Decimal, tax_cap: u128) -> int {
    let kept = (amount * DECIMAL_FRACTIONAL) / (tax_rate.atomics + DECIMAL_FRACTIONAL);
    let tax = amount - kept;
    if tax > tax_cap {
        tax_cap as int
    } else {
        tax
    }
}

/// The untaxed part never exceeds the amount itself.
proof fn lemma_kept_le_amount(amount: u128, tax_rate: Decimal)
    ensures
        0 <= (amount * DECIMAL_FRACTIONAL) / (tax_rate.atomics + DECIMAL_FRACTIONAL) <= amount,
{
    let denom = tax_rate.atomics + DECIMAL_FRACTIONAL;
    lemma_div_is_ordered_by_denominator(
        amount * DECIMAL_FRACTIONAL,
        DECIMAL_FRACTIONAL as int,
        denom,
    );
    lemma_div_multiples_vanish(amount as int, DECIMAL_FRACTIONAL as int);
    assert(amount * DECIMAL_FRACTIONAL == DECIMAL_FRACTIONAL * amount);
}

/// The tax withheld from transferring `amount`, at the oracle's `tax_rate`
/// (a decimal fraction) and `tax_cap`.
pub fn compute_tax(amount: u128, tax_rate: Decimal, tax_cap: u128) -> (r: Result<
    u128,
    ContractError,
>)
    ensures
        match r {
            Ok(tax) => tax_rate.atomics + DECIMAL_FRACTIONAL <= u128::MAX && tax == spec_tax(
                amount,
                tax_rate,
                tax_cap,
            ),
            Err(e) => e == ContractError::Overflow && tax_rate.atomics + DECIMAL_FRACTIONAL
                > u128::MAX,
        },
{
    let denom = match tax_rate.atomics.checked_add(DECIMAL_FRACTIONAL) {
        Some(d) => d,
        None => {
            return Err(ContractError::Overflow);
        },
    };
    proof {
        lemma_kept_le_amount(amount, tax_rate);
    }
    let kept = match checked_multiply_ratio(amount, DECIMAL_FRACTIONAL, denom) {
        Some(k) => k,
        None => {
            proof {
                assert(false);
            }
            0
        },
    };
    let tax = amount - kept;
    if tax > tax_cap {
        Ok(tax_cap)
    } else {
        Ok(tax)
    }
}

/// What remains of `amount` after the tax is withheld.
pub fn deduct_tax(amount: u128, tax_rate: Decimal, tax_cap: u128) -> (r: Result<
    u128,
    ContractError,
>)
    ensures
        match r {
            Ok(net) => tax_rate.atomics + DECIMAL_FRACTIONAL <= u128::MAX && net == amount
                - spec_tax(amount, tax_rate, tax_cap),
            Err(e) => e == ContractError::Overflow && tax_rate.atomics + DECIMAL_FRACTIONAL
                > u128::MAX,
        },
{
    let tax = match compute_tax(amount, tax_rate, tax_cap) {
        Ok(t) => t,
        Err(e) => {
            return Err(e);
        },
    };
    proof {
        lemma_kept_le_amount(amount, tax_rate);
    }
    Ok(amount - tax)
}

} // verus!