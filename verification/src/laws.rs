//! The general laws of the conversion engine, stated over the same spec
//! functions that the executable functions' contracts use: a conversion
//! returns `converted_scaled(q, from, to)`, so each law below holds of
//! every conversion result.

use vstd::prelude::*;

use crate::arith::{lemma_rounded_div_error, lemma_rounded_div_exact};
use crate::conversion::ConversionTable;
use crate::unit::{mass, Unit};
use crate::{converted_scaled, result_fits};

verus! {

/// Any quantity up to ninety thousand units converts without leaving the
/// fixed-point range, whatever the pair of units: the largest factor of the
/// table is the million grams in a metric ton.
pub proof fn lemma_moderate_quantity_fits(q: int, from: Unit, to: Unit)
    requires
        -9000000000000 <= q <= 9000000000000,
    ensures
        result_fits(q, from, to),
{
    lemma_rounded_div_error(q * mass(from), mass(to));
    let r = converted_scaled(q, from, to);
    assert(mass(from) <= 1000000 * mass(to));
    assert(i64::MIN <= r <= i64::MAX) by (nonlinear_arith)
        requires
            2 * mass(to) * r - 2 * (q * mass(from)) <= mass(to),
            2 * (q * mass(from)) - 2 * mass(to) * r <= mass(to),
            mass(from) <= 1000000 * mass(to),
            mass(to) >= 1,
            mass(from) >= 1,
            -9000000000000 <= q <= 9000000000000,
    ;
}

/// A conversion is symmetric in the sign of its quantity: rounding goes
/// halves away from zero, so negating the input negates the output. With
/// this, each law stated of positive quantities carries over to negative
/// ones.
pub proof fn lemma_negation_symmetric(q: int, from: Unit, to: Unit)
    ensures
        converted_scaled(-q, from, to) == -converted_scaled(q, from, to),
{
    assert((-q) * mass(from) == -(q * mass(from))) by (nonlinear_arith);
    crate::arith::lemma_rounded_div_neg(q * mass(from), mass(to));
}

/// Identity: converting any quantity from a unit to itself gives it back
/// unchanged.
pub proof fn lemma_identity(u: Unit, q: int)
    ensures
        converted_scaled(q, u, u) == q,
{
    lemma_rounded_div_exact(q, mass(u));
}

/// Exact invertibility of the table: the factors of two opposite rules of a
/// well-formed table multiply to exactly one.
pub proof fn lemma_factors_inverse(t: ConversionTable, i: int, j: int)
    requires
        t.wf(),
        0 <= i < t.rules@.len(),
        0 <= j < t.rules@.len(),
        t.rules@[i].from == t.rules@[j].to,
        t.rules@[i].to == t.rules@[j].from,
    ensures
        t.rules@[i].factor.num * t.rules@[j].factor.num == t.rules@[i].factor.den
            * t.rules@[j].factor.den,
{
    let r1 = t.rules@[i];
    let r2 = t.rules@[j];
    assert(r1.factor.num as int * r2.factor.num as int == r1.factor.den as int
        * r2.factor.den as int) by (nonlinear_arith)
        requires
            r1.factor.num as int * mass(r1.to) == r1.factor.den as int * mass(r1.from),
            r2.factor.num as int * mass(r1.from) == r2.factor.den as int * mass(r1.to),
            mass(r1.from) >= 1,
            mass(r1.to) >= 1,
            r1.factor.den >= 1,
            r2.factor.den >= 1,
    ;
}

/// Invertibility within rounding tolerance: converting a positive quantity
/// from `u` to `v` and back lands within a relative error of one in a
/// hundred thousand, for quantities large enough that the fixed eight-digit
/// precision can carry the round trip (a quantity whose converted value
/// rounds away, such as a hundred-thousandth of a pound in metric tons,
/// cannot return faithfully).
pub proof fn lemma_round_trip(u: Unit, v: Unit, q: int)
    requires
        q >= 1,
        100000 * (mass(u) + mass(v)) <= 2 * q * mass(u),
    ensures
        ({
            let rt = converted_scaled(converted_scaled(q, u, v), v, u);
            100000 * (if rt >= q {
                rt - q
            } else {
                q - rt
            }) <= q
        }),
{
    let x = converted_scaled(q, u, v);
    let rt = converted_scaled(x, v, u);
    lemma_rounded_div_error(q * mass(u), mass(v));
    lemma_rounded_div_error(x * mass(v), mass(u));
    assert(100000 * (if rt >= q {
        rt - q
    } else {
        q - rt
    }) <= q) by (nonlinear_arith)
        requires
            2 * mass(v) * x - 2 * (q * mass(u)) <= mass(v),
            2 * (q * mass(u)) - 2 * mass(v) * x <= mass(v),
            2 * mass(u) * rt - 2 * (x * mass(v)) <= mass(u),
            2 * (x * mass(v)) - 2 * mass(u) * rt <= mass(u),
            100000 * (mass(u) + mass(v)) <= 2 * q * mass(u),
            mass(u) >= 1,
            mass(v) >= 1,
            q >= 1,
    ;
}

/// Metric integer correction: one kilogram is exactly a thousand grams, one
/// metric ton exactly a thousand kilograms, and one kilogram exactly a
/// thousandth of a metric ton, with no fractional drift.
pub proof fn lemma_metric_integer_correction()
    ensures
        converted_scaled(100000000, Unit::Kilo, Unit::Gram) == 100000000000,
        converted_scaled(100000000, Unit::Ton, Unit::Kilo) == 100000000000,
        converted_scaled(100000000, Unit::Kilo, Unit::Ton) == 100000,
{
    lemma_rounded_div_exact(100000000000, mass(Unit::Gram));
    lemma_rounded_div_exact(100000000000, mass(Unit::Kilo));
    lemma_rounded_div_exact(100000, mass(Unit::Ton));
}

/// The stored factor from kilograms to grams is exactly one thousand: the
/// saturation pass derives it through the pound and the metric correction
/// leaves the exact integer.
pub proof fn lemma_table_factor_kilo_gram(t: ConversionTable, i: int)
    requires
        t.wf(),
        0 <= i < t.rules@.len(),
        t.rules@[i].from == Unit::Kilo,
        t.rules@[i].to == Unit::Gram,
    ensures
        t.rules@[i].factor.num == 1000 * t.rules@[i].factor.den,
{
    let r = t.rules@[i];
    assert(r.factor.num as int == 1000 * r.factor.den as int) by (nonlinear_arith)
        requires
            r.factor.num as int * 1000000int == r.factor.den as int * 1000000000int,
    ;
}

} // verus!

