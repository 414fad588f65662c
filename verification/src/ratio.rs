//! Exact tip/gas ratio comparison. Ratios are never represented as floats;
//! two ratios compare as exact rationals, which over the integers is
//! cross-multiplication.

use vstd::prelude::*;

verus! {

/// `a_tip / a_gas < b_tip / b_gas` as exact rationals, by cross-multiplication
/// over the unbounded integers. Meaningful for positive `a_gas` and `b_gas`.
pub open spec fn ratio_lt(a_tip: u64, a_gas: u64, b_tip: u64, b_gas: u64) -> bool {
    (a_tip as int) * (b_gas as int) < (b_tip as int) * (a_gas as int)
}

/// `a_tip / a_gas == b_tip / b_gas` as exact rationals.
pub open spec fn ratio_eqv(a_tip: u64, a_gas: u64, b_tip: u64, b_gas: u64) -> bool {
    (a_tip as int) * (b_gas as int) == (b_tip as int) * (a_gas as int)
}

/// Relies on num_rational::Ratio: `Ratio::new` reduces the fraction (and
/// panics only on a zero denominator, excluded here), and `PartialOrd` on
/// `Ratio<u64>` compares the two fractions exactly, without overflow, which
/// over the integers coincides with cross-multiplication.
#[verifier::external_body]
pub(crate) fn ratio_less(a_tip: u64, a_gas: u64, b_tip: u64, b_gas: u64) -> (r: bool)
    requires
        a_gas >= 1,
        b_gas >= 1,
    ensures
        r == ratio_lt(a_tip, a_gas, b_tip, b_gas),
{
    num_rational::Ratio::new(a_tip, a_gas) < num_rational::Ratio::new(b_tip, b_gas)
}

/// The strict ratio order is transitive.
pub proof fn lemma_ratio_lt_trans(
    a_tip: u64,
    a_gas: u64,
    b_tip: u64,
    b_gas: u64,
    c_tip: u64,
    c_gas: u64,
)
    requires
        a_gas >= 1,
        b_gas >= 1,
        c_gas >= 1,
        ratio_lt(a_tip, a_gas, b_tip, b_gas),
        ratio_lt(b_tip, b_gas, c_tip, c_gas),
    ensures
        ratio_lt(a_tip, a_gas, c_tip, c_gas),
{
    assert((a_tip as int) * (c_gas as int) < (c_tip as int) * (a_gas as int)) by (nonlinear_arith)
        requires
            a_gas >= 1,
            b_gas >= 1,
            c_gas >= 1,
            (a_tip as int) * (b_gas as int) < (b_tip as int) * (a_gas as int),
            (b_tip as int) * (c_gas as int) < (c_tip as int) * (b_gas as int),
    ;
}

/// A ratio equal to a strictly smaller one is itself strictly smaller.
pub proof fn lemma_ratio_eqv_lt(
    a_tip: u64,
    a_gas: u64,
    b_tip: u64,
    b_gas: u64,
    c_tip: u64,
    c_gas: u64,
)
    requires
        a_gas >= 1,
        b_gas >= 1,
        c_gas >= 1,
        ratio_eqv(a_tip, a_gas, b_tip, b_gas),
        ratio_lt(b_tip, b_gas, c_tip, c_gas),
    ensures
        ratio_lt(a_tip, a_gas, c_tip, c_gas),
{
    assert((a_tip as int) * (c_gas as int) < (c_tip as int) * (a_gas as int)) by (nonlinear_arith)
        requires
            a_gas >= 1,
            b_gas >= 1,
            c_gas >= 1,
            (a_tip as int) * (b_gas as int) == (b_tip as int) * (a_gas as int),
            (b_tip as int) * (c_gas as int) < (c_tip as int) * (b_gas as int),
    ;
}

/// A ratio strictly smaller than one equal to another is strictly smaller
/// than that other.
pub proof fn lemma_ratio_lt_eqv(
    a_tip: u64,
    a_gas: u64,
    b_tip: u64,
    b_gas: u64,
    c_tip: u64,
    c_gas: u64,
)
    requires
        a_gas >= 1,
        b_gas >= 1,
        c_gas >= 1,
        ratio_lt(a_tip, a_gas, b_tip, b_gas),
        ratio_eqv(b_tip, b_gas, c_tip, c_gas),
    ensures
        ratio_lt(a_tip, a_gas, c_tip, c_gas),
{
    assert((a_tip as int) * (c_gas as int) < (c_tip as int) * (a_gas as int)) by (nonlinear_arith)
        requires
            a_gas >= 1,
            b_gas >= 1,
            c_gas >= 1,
            (a_tip as int) * (b_gas as int) < (b_tip as int) * (a_gas as int),
            (b_tip as int) * (c_gas as int) == (c_tip as int) * (b_gas as int),
    ;
}

/// Ratio equivalence is transitive.
pub proof fn lemma_ratio_eqv_trans(
    a_tip: u64,
    a_gas: u64,
    b_tip: u64,
    b_gas: u64,
    c_tip: u64,
    c_gas: u64,
)
    requires
        a_gas >= 1,
        b_gas >= 1,
        c_gas >= 1,
        ratio_eqv(a_tip, a_gas, b_tip, b_gas),
        ratio_eqv(b_tip, b_gas, c_tip, c_gas),
    ensures
        ratio_eqv(a_tip, a_gas, c_tip, c_gas),
{
    assert((a_tip as int) * (c_gas as int) == (c_tip as int) * (a_gas as int)) by (nonlinear_arith)
        requires
            a_gas >= 1,
            b_gas >= 1,
            c_gas >= 1,
            (a_tip as int) * (b_gas as int) == (b_tip as int) * (a_gas as int),
            (b_tip as int) * (c_gas as int) == (c_tip as int) * (b_gas as int),
    ;
}

} // verus!
