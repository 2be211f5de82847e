//! The fixed, closed set of weight units.

use vstd::prelude::*;

use crate::error::ConvertError;

verus! {

/// A weight unit, either metric (gram, kilo, ton) or pound.
#[derive(Copy, Clone, Debug, PartialEq, Eq, Hash, Structural)]
pub enum Unit {
    Lb,
    Kilo,
    Ton,
    Gram,
}

/// The mass of one of each unit, in micrograms. This is the mathematical
/// model against which every conversion factor of the table is stated: the
/// exact factor converting a quantity from `u` to `v` is `u.mass() / v.mass()`.
pub open spec fn mass(u: Unit) -> int {
    match u {
        Unit::Lb => 453592370,
        Unit::Kilo => 1000000000,
        Unit::Ton => 1000000000000,
        Unit::Gram => 1000000,
    }
}

/// Which unit, if any, a unit code denotes.
pub open spec fn unit_of_code(s: Seq<char>) -> Option<Unit> {
    if s == "lb"@ {
        Some(Unit::Lb)
    } else if s == "g"@ {
        Some(Unit::Gram)
    } else if s == "kg"@ {
        Some(Unit::Kilo)
    } else if s == "metric ton"@ {
        Some(Unit::Ton)
    } else {
        None
    }
}

/// A distinct position of each unit, used to count the ordered pairs of the
/// four-element unit set.
pub open spec fn unit_index(u: Unit) -> int {
    match u {
        Unit::Lb => 0,
        Unit::Kilo => 1,
        Unit::Ton => 2,
        Unit::Gram => 3,
    }
}

impl Unit {
    /// Whether the unit belongs to the metric system.
    pub open spec fn metric(self) -> bool {
        !(self == Unit::Lb)
    }

    /// Whether the unit belongs to the metric system (pound is the only
    /// non-metric unit of the set).
    pub fn is_metric(&self) -> (r: bool)
        ensures
            r == self.metric(),
    {
        matches!(self, Unit::Kilo | Unit::Ton | Unit::Gram)
    }

    /// Parse a unit code. Exactly the four codes `"lb"`, `"g"`, `"kg"` and
    /// `"metric ton"` are recognized; any other token is rejected with
    /// `ConvertError::UnknownUnit` carrying that token.
    pub fn try_from(unit: &str) -> (r: Result<Unit, ConvertError>)
        ensures
            match r {
                Ok(u) => unit_of_code(unit@) == Some(u),
                Err(e) => unit_of_code(unit@) is None && (e matches ConvertError::UnknownUnit(t)
                    && t@ == unit@),
            },
    {
        if str_eq(unit, "lb") {
            Ok(Unit::Lb)
        } else if str_eq(unit, "g") {
            Ok(Unit::Gram)
        } else if str_eq(unit, "kg") {
            Ok(Unit::Kilo)
        } else if str_eq(unit, "metric ton") {
            Ok(Unit::Ton)
        } else {
            Err(ConvertError::UnknownUnit(unit.to_owned()))
        }
    }
}

/// Equality of two string slices, decided on their character sequences.
fn str_eq(a: &str, b: &str) -> (r: bool)
    ensures
        r == (a@ == b@),
{
    let owned_a = a.to_owned();
    let owned_b = b.to_owned();
    owned_a == owned_b
}

} // verus!
