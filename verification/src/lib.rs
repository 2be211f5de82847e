//! A small engine that converts a quantity of mass from one weight unit to
//! another (pound, kilogram, gram, metric ton).
//!
//! A fixed seed list of directly known conversion rules is expanded into a
//! complete table covering every ordered pair of units, by inverting and
//! composing rules until saturation. Conversion factors are kept as exact
//! rational numbers, and quantities as fixed-point numbers with eight
//! decimal digits, so every step of the computation is exact: the result of
//! a conversion is proved equal to `quantity * mass(from) / mass(to)`,
//! rounded to eight decimal digits.

pub mod arith;
pub mod conversion;
pub mod decimal;
pub mod error;
pub mod frac;
pub mod laws;
pub mod unit;

pub use conversion::{ConversionRule, ConversionTable};
pub use error::ConvertError;
pub use unit::Unit;

use vstd::prelude::*;
use vstd::pervasive::unreached;

use crate::arith::{rounded_div, rounded_div_i128, lemma_rounded_div_frac_eq};
use crate::conversion::wf_rule;
use crate::unit::mass;

verus! {

/// A quantity of mass in fixed-point form: `scaled` counts units of one
/// hundred-millionth, so a `scaled` of 100_000_000 is a quantity of one.
/// Eight decimal digits is the fixed precision of every conversion result.
#[derive(Copy, Clone, Debug, PartialEq, Eq, Structural)]
pub struct Quantity {
    pub scaled: i64,
}

/// What a conversion returns: the quantity times the exact factor
/// `mass(from) / mass(to)`, rounded to the nearest representable
/// fixed-point number.
pub open spec fn converted_scaled(q: int, from: Unit, to: Unit) -> int {
    rounded_div(q * mass(from), mass(to))
}

/// The conversion result stays representable as a fixed-point quantity.
pub open spec fn result_fits(q: int, from: Unit, to: Unit) -> bool {
    i64::MIN <= converted_scaled(q, from, to) <= i64::MAX
}

impl ConversionRule {
    /// Apply the conversion factor to the given quantity, rounded to the
    /// fixed precision of eight decimal digits.
    pub fn convert(&self, quantity: Quantity) -> (r: Quantity)
        requires
            wf_rule(*self),
            result_fits(quantity.scaled as int, self.from, self.to),
        ensures
            r.scaled as int == converted_scaled(quantity.scaled as int, self.from, self.to),
    {
        let q = quantity.scaled as i128;
        let num = self.factor.num as i128;
        let den = self.factor.den as i128;
        proof {
            assert(-0x10000000000000000000000000000i128 <= q * num
                <= 0x10000000000000000000000000000i128) by (nonlinear_arith)
                requires
                    -0x8000000000000000i128 <= q <= 0x7fffffffffffffffi128,
                    1 <= num <= 1000000000000i128,
            ;
            assert((q * num) * mass(self.to) == (q * mass(self.from)) * den) by (nonlinear_arith)
                requires
                    num * mass(self.to) == den * mass(self.from),
            ;
            lemma_rounded_div_frac_eq(q * num, den as int, q * mass(self.from), mass(self.to));
        }
        let wide = rounded_div_i128(q * num, den);
        Quantity { scaled: wide as i64 }
    }
}

impl Unit {
    /// Convert a quantity of this unit into the target unit, looking the
    /// factor up in the completed table. The table covers every ordered
    /// pair, so the lookup cannot miss.
    pub fn convert_to(self, to: Unit, quantity: Quantity, table: &ConversionTable) -> (r: Quantity)
        requires
            table.wf(),
            table.complete(),
            result_fits(quantity.scaled as int, self, to),
        ensures
            r.scaled as int == converted_scaled(quantity.scaled as int, self, to),
    {
        match table.find_rule(self, to) {
            Some(rule) => rule.convert(quantity),
            None => unreached(),
        }
    }
}

/// Represent a conversion command, from the given unit to the given unit
/// with the provided quantity.
#[derive(Copy, Clone, Debug)]
pub struct ConversionRequest {
    pub from: Unit,
    pub to: Unit,
    pub quantity: Quantity,
}

impl ConversionRequest {
    /// Execute the given conversion, returning the conversion result
    /// rounded to the eighth decimal digit.
    pub fn execute(&self) -> (r: Quantity)
        requires
            result_fits(self.quantity.scaled as int, self.from, self.to),
        ensures
            r.scaled as int == converted_scaled(self.quantity.scaled as int, self.from, self.to),
    {
        let table = ConversionTable::build();
        self.from.convert_to(self.to, self.quantity, &table)
    }
}

} // verus!
