//! The conversion rule closure engine. A small seed list of directly known
//! rules is expanded, by inverting and composing rules until saturation,
//! into a table holding exactly one rule for every ordered pair of units.
//!
//! Every rule the table ever holds carries the exact factor `mass(from) /
//! mass(to)`: seeds are checked against it, inversion swaps it, and
//! composition multiplies it. That invariant is what makes the final
//! contract of a conversion a single arithmetic formula.

use vstd::prelude::*;
use vstd::arithmetic::div_mod::lemma_fundamental_div_mod_converse;
use vstd::pervasive::unreached;
use vstd::seq_lib::*;
use vstd::set_lib::*;

use crate::arith::lemma_reduced_bound;
use crate::decimal::{dec_den, dec_num, parse_decimal, valid_decimal};
use crate::error::ConvertError;
use crate::frac::Frac;
use crate::unit::{mass, unit_index, unit_of_code, Unit};

verus! {

/// A conversion from a given unit to the target unit.
#[derive(Copy, Clone, Debug)]
pub struct ConversionRule {
    /// The unit to convert from.
    pub from: Unit,
    /// Target unit of the conversion rule.
    pub to: Unit,
    /// The exact factor: a quantity in `from` times it is the quantity in `to`.
    pub factor: Frac,
}

/// The rule carries the exact factor `mass(from) / mass(to)`.
pub open spec fn true_rule(r: ConversionRule) -> bool {
    r.factor.num as int * mass(r.to) == r.factor.den as int * mass(r.from)
}

/// A well-formed rule: a positive, bounded, exact factor.
pub open spec fn wf_rule(r: ConversionRule) -> bool {
    r.factor.positive() && r.factor.bounded() && true_rule(r)
}

impl PartialEq for ConversionRule {
    /// Identity of a rule is its ordered unit pair alone.
    fn eq(&self, other: &Self) -> (r: bool) {
        self.from == other.from && self.to == other.to
    }
}

impl vstd::std_specs::cmp::PartialEqSpecImpl for ConversionRule {
    open spec fn obeys_eq_spec() -> bool {
        true
    }

    open spec fn eq_spec(&self, other: &Self) -> bool {
        self.from == other.from && self.to == other.to
    }
}

impl Eq for ConversionRule {

}

/// Every unit's mass lies between one and a million million micrograms.
proof fn lemma_mass_bounds(u: Unit)
    ensures
        1 <= mass(u) <= 1000000000000,
{
}

impl ConversionRule {
    /// Build a rule from a seed row: two unit codes and a factor written as
    /// a decimal string. An unknown unit code is the one reported error; the
    /// factor strings of the seed table are well-formed by construction, so
    /// a malformed factor is excluded up front rather than handled.
    pub fn try_from(from_code: &str, to_code: &str, factor_code: &str) -> (r: Result<
        ConversionRule,
        ConvertError,
    >)
        requires
            valid_decimal(factor_code@),
            factor_code@.len() <= 20,
            dec_num(factor_code@) >= 1,
        ensures
            match r {
                Ok(rule) => unit_of_code(from_code@) == Some(rule.from) && unit_of_code(to_code@)
                    == Some(rule.to) && rule.factor.num as int == dec_num(factor_code@)
                    && rule.factor.den as int == dec_den(factor_code@),
                Err(e) => (unit_of_code(from_code@) is None || unit_of_code(to_code@) is None) && (
                e matches ConvertError::UnknownUnit(t) && (if unit_of_code(from_code@) is None {
                    t@ == from_code@
                } else {
                    t@ == to_code@
                })),
            },
    {
        let from = match Unit::try_from(from_code) {
            Ok(u) => u,
            Err(e) => {
                return Err(e);
            },
        };
        let to = match Unit::try_from(to_code) {
            Ok(u) => u,
            Err(e) => {
                return Err(e);
            },
        };
        match parse_decimal(factor_code) {
            Some(p) => Ok(ConversionRule { from, to, factor: Frac { num: p.0, den: p.1 } }),
            None => unreached(),
        }
    }

    /// The rule for the opposite direction, with the reciprocal factor.
    fn invert(self) -> (r: ConversionRule)
        requires
            self.factor.positive(),
        ensures
            r.from == self.to,
            r.to == self.from,
            r.factor.num == self.factor.den,
            r.factor.den == self.factor.num,
    {
        ConversionRule { from: self.to, to: self.from, factor: self.factor.invert() }
    }

    /// Combine two rules A -> B and B -> C into a rule A -> C. The factor is
    /// one for a self-loop and the product of the two factors otherwise; a
    /// metric-to-metric factor above one is rounded up to the nearest
    /// integer, which compensates the sub-integer drift such chains show in
    /// floating point (here the product is already exact, and the rounding
    /// is shown to change nothing). The product is put in lowest terms so
    /// that the parts of a stored factor stay bounded.
    fn combine(&self, other: &ConversionRule) -> (r: ConversionRule)
        requires
            wf_rule(*self),
            wf_rule(*other),
            other.from == self.to,
        ensures
            r.from == self.from,
            r.to == other.to,
            wf_rule(r),
    {
        let from = self.from;
        let to = other.to;
        if from == to {
            ConversionRule { from, to, factor: Frac::one() }
        } else {
            let prod = self.factor.mul(other.factor);
            proof {
                lemma_mass_bounds(self.from);
                lemma_mass_bounds(self.to);
                lemma_mass_bounds(other.to);
                assert(prod.num as int * mass(to) == prod.den as int * mass(from))
                    by (nonlinear_arith)
                    requires
                        prod.num as int == self.factor.num as int * other.factor.num as int,
                        prod.den as int == self.factor.den as int * other.factor.den as int,
                        self.factor.num as int * mass(self.to) == self.factor.den as int * mass(
                            self.from,
                        ),
                        other.factor.num as int * mass(other.to) == other.factor.den as int * mass(
                            self.to,
                        ),
                        mass(self.to) >= 1,
                        from == self.from,
                        to == other.to,
                ;
            }
            proof {
                assert(prod.num <= 1000000000000000000000000u128 && prod.den
                    <= 1000000000000000000000000u128) by (nonlinear_arith)
                    requires
                        prod.num as int == self.factor.num as int * other.factor.num as int,
                        prod.den as int == self.factor.den as int * other.factor.den as int,
                        self.factor.num <= 1000000000000u128,
                        self.factor.den <= 1000000000000u128,
                        other.factor.num <= 1000000000000u128,
                        other.factor.den <= 1000000000000u128,
                        self.factor.num >= 1,
                        self.factor.den >= 1,
                        other.factor.num >= 1,
                        other.factor.den >= 1,
                ;
            }
            if self.from.is_metric() && other.to.is_metric() && prod.gt_one() {
                proof {
                    assert(mass(from) > mass(to)) by (nonlinear_arith)
                        requires
                            prod.num as int * mass(to) == prod.den as int * mass(from),
                            prod.num > prod.den,
                            prod.den >= 1,
                            mass(from) >= 1,
                            mass(to) >= 1,
                    ;
                    assert(mass(from) == 1000 * mass(to) || mass(from) == 1000000 * mass(to));
                }
                let ghost k = if mass(from) == 1000 * mass(to) {
                    1000int
                } else {
                    1000000int
                };
                proof {
                    assert(prod.num as int == prod.den as int * k) by (nonlinear_arith)
                        requires
                            prod.num as int * mass(to) == prod.den as int * mass(from),
                            mass(from) == k * mass(to),
                            mass(to) >= 1,
                    ;
                }
                let cf = prod.ceil_value();
                proof {
                    lemma_fundamental_div_mod_converse(
                        prod.num as int + prod.den as int - 1,
                        prod.den as int,
                        k,
                        prod.den as int - 1,
                    );
                    assert(cf.num as int == k);
                    assert(cf.num as int * mass(to) == cf.den as int * mass(from));
                }
                ConversionRule { from, to, factor: cf }
            } else {
                let rf = prod.reduce();
                proof {
                    assert(rf.num as int * mass(to) == rf.den as int * mass(from))
                        by (nonlinear_arith)
                        requires
                            rf.num as int * prod.den as int == rf.den as int * prod.num as int,
                            prod.num as int * mass(to) == prod.den as int * mass(from),
                            prod.den >= 1,
                            rf.num >= 1,
                            rf.den >= 1,
                            mass(to) >= 1,
                            mass(from) >= 1,
                    ;
                    lemma_reduced_bound(rf.num as nat, rf.den as nat, mass(from), mass(to));
                }
                ConversionRule { from, to, factor: rf }
            }
        }
    }
}

/// Whether some rule in the sequence covers the ordered pair.
pub open spec fn seq_has_pair(s: Seq<ConversionRule>, from: Unit, to: Unit) -> bool {
    exists|i: int| 0 <= i < s.len() && (#[trigger] s[i]).from == from && s[i].to == to
}

/// The sequence is closed under composition: whenever two rules chain, the
/// composed pair is also covered.
pub open spec fn seq_composed(s: Seq<ConversionRule>) -> bool {
    forall|i: int, j: int|
        0 <= i < s.len() && 0 <= j < s.len() && (#[trigger] s[i]).to == (#[trigger] s[j]).from
            ==> seq_has_pair(s, s[i].from, s[j].to)
}

/// The complete table of conversion rules, one for every ordered pair of
/// units.
pub struct ConversionTable {
    pub rules: Vec<ConversionRule>,
}

impl ConversionTable {
    /// The table covers the ordered pair.
    pub open spec fn contains_pair(self, from: Unit, to: Unit) -> bool {
        seq_has_pair(self.rules@, from, to)
    }

    /// Every rule is well formed and no ordered pair occurs twice.
    pub open spec fn wf(self) -> bool {
        &&& forall|i: int| 0 <= i < self.rules@.len() ==> wf_rule(#[trigger] self.rules@[i])
        &&& forall|i: int, j: int|
            0 <= i < j < self.rules@.len() ==> !((#[trigger] self.rules@[i]).from == (
            #[trigger] self.rules@[j]).from && self.rules@[i].to == self.rules@[j].to)
    }

    /// Every ordered pair of units is covered.
    pub open spec fn complete(self) -> bool {
        forall|a: Unit, b: Unit| self.contains_pair(a, b)
    }

    /// Look up the rule for an ordered pair.
    pub fn find_rule(&self, from: Unit, to: Unit) -> (r: Option<ConversionRule>)
        ensures
            match r {
                Some(rule) => rule.from == from && rule.to == to && self.contains_pair(from, to)
                    && (self.wf() ==> wf_rule(rule)),
                None => !self.contains_pair(from, to),
            },
    {
        let mut k: usize = 0;
        while k < self.rules.len()
            invariant
                0 <= k <= self.rules@.len(),
                forall|p: int|
                    0 <= p < k ==> !((#[trigger] self.rules@[p]).from == from && self.rules@[p].to
                        == to),
            decreases self.rules@.len() - k,
        {
            let r = self.rules[k];
            if r.from == from && r.to == to {
                return Some(r);
            }
            k += 1;
        }
        None
    }

    /// Whether the table covers an ordered pair.
    fn contains(&self, from: Unit, to: Unit) -> (r: bool)
        ensures
            r == self.contains_pair(from, to),
    {
        self.find_rule(from, to).is_some()
    }

    /// Insert a rule unless its ordered pair is already covered: the first
    /// inserted factor for a pair stays authoritative.
    fn insert_new(&mut self, rule: ConversionRule)
        requires
            old(self).wf(),
            wf_rule(rule) || old(self).contains_pair(rule.from, rule.to),
        ensures
            final(self).wf(),
            forall|a: Unit, b: Unit|
                #[trigger] seq_has_pair(final(self).rules@, a, b) <==> seq_has_pair(
                    old(self).rules@,
                    a,
                    b,
                ) || (a == rule.from && b == rule.to),
            forall|k: int|
                0 <= k < old(self).rules@.len() ==> final(self).rules@[k] == old(self).rules@[k],
            old(self).rules@.len() <= final(self).rules@.len() <= old(self).rules@.len() + 1,
            (final(self).rules@.len() == old(self).rules@.len()) <==> seq_has_pair(
                old(self).rules@,
                rule.from,
                rule.to,
            ),
    {
        if !self.contains(rule.from, rule.to) {
            let ghost before = self.rules@;
            self.rules.push(rule);
            proof {
                assert(self.rules@ == before.push(rule));
                assert(self.rules@[before.len() as int] == rule);
                assert forall|a: Unit, b: Unit| #[trigger] seq_has_pair(self.rules@, a, b) implies
                    seq_has_pair(before, a, b) || (a == rule.from && b == rule.to) by {
                    let i = choose|i: int|
                        0 <= i < self.rules@.len() && (#[trigger] self.rules@[i]).from == a
                            && self.rules@[i].to == b;
                    if i < before.len() {
                        assert(before[i].from == a && before[i].to == b);
                    }
                }
                assert forall|a: Unit, b: Unit|
                    seq_has_pair(before, a, b) implies #[trigger] seq_has_pair(
                    self.rules@,
                    a,
                    b,
                ) by {
                    let i = choose|i: int|
                        0 <= i < before.len() && (#[trigger] before[i]).from == a && before[i].to
                            == b;
                    assert(self.rules@[i].from == a && self.rules@[i].to == b);
                }
            }
        }
    }

    /// One saturation pass: for every chained pair of rules already in the
    /// table, insert the composed rule, and its inverse, where the ordered
    /// pair is not yet covered. Reports whether the table grew.
    fn pass(&mut self) -> (grown: bool)
        requires
            old(self).wf(),
        ensures
            final(self).wf(),
            grown == (final(self).rules@.len() > old(self).rules@.len()),
            final(self).rules@.len() >= old(self).rules@.len(),
            forall|k: int|
                0 <= k < old(self).rules@.len() ==> final(self).rules@[k] == old(self).rules@[k],
            forall|a: Unit, b: Unit|
                seq_has_pair(old(self).rules@, a, b) ==> #[trigger] seq_has_pair(
                    final(self).rules@,
                    a,
                    b,
                ),
            forall|i: int, j: int|
                0 <= i < old(self).rules@.len() && 0 <= j < old(self).rules@.len() && (
                #[trigger] old(self).rules@[i]).to == (#[trigger] old(self).rules@[j]).from
                    ==> seq_has_pair(
                    final(self).rules@,
                    old(self).rules@[i].from,
                    old(self).rules@[j].to,
                ),
    {
        let ghost orig = self.rules@;
        let n0 = self.rules.len();
        let mut i: usize = 0;
        while i < n0
            invariant
                self.wf(),
                n0 == orig.len(),
                self.rules@.len() >= n0,
                0 <= i <= n0,
                forall|k: int| 0 <= k < n0 ==> self.rules@[k] == orig[k],
                forall|a: Unit, b: Unit|
                    seq_has_pair(orig, a, b) ==> #[trigger] seq_has_pair(self.rules@, a, b),
                forall|p: int, q: int|
                    0 <= p < i && 0 <= q < n0 && (#[trigger] orig[p]).to == (
                    #[trigger] orig[q]).from ==> seq_has_pair(self.rules@, orig[p].from, orig[q].to),
            decreases n0 - i,
        {
            let mut j: usize = 0;
            while j < n0
                invariant
                    self.wf(),
                    n0 == orig.len(),
                    self.rules@.len() >= n0,
                    0 <= i < n0,
                    0 <= j <= n0,
                    forall|k: int| 0 <= k < n0 ==> self.rules@[k] == orig[k],
                    forall|a: Unit, b: Unit|
                        seq_has_pair(orig, a, b) ==> #[trigger] seq_has_pair(self.rules@, a, b),
                    forall|p: int, q: int|
                        0 <= p < i && 0 <= q < n0 && (#[trigger] orig[p]).to == (
                        #[trigger] orig[q]).from ==> seq_has_pair(
                            self.rules@,
                            orig[p].from,
                            orig[q].to,
                        ),
                    forall|q: int|
                        0 <= q < j && orig[i as int].to == (#[trigger] orig[q]).from
                            ==> seq_has_pair(self.rules@, orig[i as int].from, orig[q].to),
                decreases n0 - j,
            {
                let rule = self.rules[i];
                let other = self.rules[j];
                if other.from == rule.to {
                    let composed = rule.combine(&other);
                    if !self.contains(composed.from, composed.to) {
                        self.insert_new(composed);
                        let inverted = composed.invert();
                        proof {
                            assert(wf_rule(inverted));
                        }
                        if !self.contains(inverted.from, inverted.to) {
                            self.insert_new(inverted);
                        }
                    }
                }
                j += 1;
            }
            i += 1;
        }
        self.rules.len() > n0
    }
}

/// A table whose pairs are distinct holds at most sixteen rules: there are
/// only sixteen ordered pairs of the four units.
proof fn lemma_distinct_pairs_le_16(s: Seq<ConversionRule>)
    requires
        forall|i: int, j: int|
            0 <= i < j < s.len() ==> !((#[trigger] s[i]).from == (#[trigger] s[j]).from && s[i].to
                == s[j].to),
    ensures
        s.len() <= 16,
{
    let idxs = Seq::new(s.len(), |i: int| 4 * unit_index(s[i].from) + unit_index(s[i].to));
    assert forall|i: int, j: int|
        0 <= i < idxs.len() && 0 <= j < idxs.len() && i != j implies idxs[i] != idxs[j] by {
        let (a, b) = if i < j {
            (i, j)
        } else {
            (j, i)
        };
        assert(!(s[a].from == s[b].from && s[a].to == s[b].to));
        assert(0 <= unit_index(s[a].from) < 4 && 0 <= unit_index(s[a].to) < 4);
        assert(0 <= unit_index(s[b].from) < 4 && 0 <= unit_index(s[b].to) < 4);
    }
    assert(idxs.no_duplicates());
    idxs.unique_seq_to_set();
    assert(idxs.to_set().subset_of(set_int_range(0, 16))) by {
        assert forall|x: int| idxs.to_set().contains(x) implies set_int_range(0, 16).contains(
            x,
        ) by {
            let i = choose|i: int| 0 <= i < idxs.len() && idxs[i] == x;
            assert(0 <= unit_index(s[i].from) < 4 && 0 <= unit_index(s[i].to) < 4);
        }
    }
    lemma_int_range(0, 16);
    lemma_len_subset(idxs.to_set(), set_int_range(0, 16));
}

/// In a composed sequence, covered pairs chain: from A -> B and B -> C
/// covered, A -> C is covered.
proof fn lemma_compose_pair(s: Seq<ConversionRule>, a: Unit, b: Unit, c: Unit)
    requires
        seq_composed(s),
        seq_has_pair(s, a, b),
        seq_has_pair(s, b, c),
    ensures
        seq_has_pair(s, a, c),
{
    let i = choose|i: int| 0 <= i < s.len() && (#[trigger] s[i]).from == a && s[i].to == b;
    let j = choose|j: int| 0 <= j < s.len() && (#[trigger] s[j]).from == b && s[j].to == c;
    assert(s[i].to == s[j].from);
    assert(seq_has_pair(s, s[i].from, s[j].to));
}

impl ConversionTable {
    /// Build the complete conversion table: insert every seed rule and its
    /// inverse (first factor per pair stays), then run saturation passes
    /// until a pass no longer grows the table. The result is well formed and
    /// covers every ordered pair of units.
    pub fn build() -> (t: ConversionTable)
        ensures
            t.wf(),
            t.complete(),
    {
        // make the seed strings concrete, so that the parses below evaluate
        proof {
            reveal_strlit("0.45359237");
            reveal_strlit("453.59237");
            reveal_strlit("2.20462262");
            reveal_strlit("0.001");
            reveal_strlit("lb");
            reveal_strlit("g");
            reveal_strlit("kg");
            reveal_strlit("metric ton");
            reveal_with_fuel(crate::decimal::dot_count, 12);
            reveal_with_fuel(crate::decimal::has_dot, 12);
            reveal_with_fuel(dec_num, 12);
            reveal_with_fuel(dec_den, 12);
        }
        // the four unit codes are pairwise distinct, and each denotes its unit
        proof {
            assert("kg"@ != "lb"@) by {
                assert("kg"@[0] == 'k' && "lb"@[0] == 'l');
            }
            assert("g"@ != "lb"@) by {
                assert("g"@.len() == 1 && "lb"@.len() == 2);
            }
            assert("metric ton"@ != "lb"@ && "metric ton"@ != "g"@ && "metric ton"@ != "kg"@) by {
                assert("metric ton"@.len() == 10);
            }
            assert(unit_of_code("lb"@) == Some(Unit::Lb));
            assert(unit_of_code("kg"@) == Some(Unit::Kilo));
            assert(unit_of_code("g"@) == Some(Unit::Gram));
            assert(unit_of_code("metric ton"@) == Some(Unit::Ton));
        }
        let mut t = ConversionTable { rules: Vec::new() };
        let r1 = match ConversionRule::try_from("lb", "kg", "0.45359237") {
            Ok(r) => r,
            Err(_) => unreached(),
        };
        proof {
            assert(r1.factor.num == 45359237 && r1.factor.den == 100000000);
            assert(r1.from == Unit::Lb && r1.to == Unit::Kilo);
            assert(45359237int * 1000000000int == 100000000int * 453592370int)
                by (nonlinear_arith);
            assert(wf_rule(r1));
        }
        t.insert_new(r1);
        let i1 = r1.invert();
        t.insert_new(i1);
        let r2 = match ConversionRule::try_from("lb", "g", "453.59237") {
            Ok(r) => r,
            Err(_) => unreached(),
        };
        proof {
            assert(r2.factor.num == 45359237 && r2.factor.den == 100000);
            assert(r2.from == Unit::Lb && r2.to == Unit::Gram);
            assert(45359237int * 1000000int == 100000int * 453592370int) by (nonlinear_arith);
            assert(wf_rule(r2));
        }
        t.insert_new(r2);
        let i2 = r2.invert();
        t.insert_new(i2);
        let r3 = match ConversionRule::try_from("kg", "lb", "2.20462262") {
            Ok(r) => r,
            Err(_) => unreached(),
        };
        // the pair of this seed is already covered by the inverse of the
        // first seed, whose factor stays authoritative
        proof {
            assert(t.contains_pair(Unit::Kilo, Unit::Lb));
        }
        t.insert_new(r3);
        let i3 = r3.invert();
        proof {
            assert(t.contains_pair(Unit::Lb, Unit::Kilo));
        }
        t.insert_new(i3);
        let r4 = match ConversionRule::try_from("kg", "metric ton", "0.001") {
            Ok(r) => r,
            Err(_) => unreached(),
        };
        proof {
            assert(r4.factor.num == 1 && r4.factor.den == 1000);
            assert(r4.from == Unit::Kilo && r4.to == Unit::Ton);
            assert(wf_rule(r4));
        }
        t.insert_new(r4);
        let i4 = r4.invert();
        t.insert_new(i4);
        proof {
            assert(t.contains_pair(Unit::Lb, Unit::Kilo));
            assert(t.contains_pair(Unit::Kilo, Unit::Lb));
            assert(t.contains_pair(Unit::Lb, Unit::Gram));
            assert(t.contains_pair(Unit::Gram, Unit::Lb));
            assert(t.contains_pair(Unit::Kilo, Unit::Ton));
            assert(t.contains_pair(Unit::Ton, Unit::Kilo));
        }
        loop
            invariant
                t.wf(),
                t.rules@.len() <= 16,
                seq_has_pair(t.rules@, Unit::Lb, Unit::Kilo),
                seq_has_pair(t.rules@, Unit::Kilo, Unit::Lb),
                seq_has_pair(t.rules@, Unit::Lb, Unit::Gram),
                seq_has_pair(t.rules@, Unit::Gram, Unit::Lb),
                seq_has_pair(t.rules@, Unit::Kilo, Unit::Ton),
                seq_has_pair(t.rules@, Unit::Ton, Unit::Kilo),
            ensures
                t.wf(),
                seq_composed(t.rules@),
                seq_has_pair(t.rules@, Unit::Lb, Unit::Kilo),
                seq_has_pair(t.rules@, Unit::Kilo, Unit::Lb),
                seq_has_pair(t.rules@, Unit::Lb, Unit::Gram),
                seq_has_pair(t.rules@, Unit::Gram, Unit::Lb),
                seq_has_pair(t.rules@, Unit::Kilo, Unit::Ton),
                seq_has_pair(t.rules@, Unit::Ton, Unit::Kilo),
            decreases 16 - t.rules@.len(),
        {
            let ghost prev = t.rules@;
            let grown = t.pass();
            proof {
                lemma_distinct_pairs_le_16(t.rules@);
            }
            if !grown {
                proof {
                    assert(t.rules@ =~= prev);
                }
                break ;
            }
        }
        proof {
            let s = t.rules@;
            lemma_compose_pair(s, Unit::Lb, Unit::Kilo, Unit::Lb);
            lemma_compose_pair(s, Unit::Kilo, Unit::Lb, Unit::Kilo);
            lemma_compose_pair(s, Unit::Gram, Unit::Lb, Unit::Gram);
            lemma_compose_pair(s, Unit::Ton, Unit::Kilo, Unit::Ton);
            lemma_compose_pair(s, Unit::Kilo, Unit::Lb, Unit::Gram);
            lemma_compose_pair(s, Unit::Gram, Unit::Lb, Unit::Kilo);
            lemma_compose_pair(s, Unit::Lb, Unit::Kilo, Unit::Ton);
            lemma_compose_pair(s, Unit::Ton, Unit::Kilo, Unit::Lb);
            lemma_compose_pair(s, Unit::Ton, Unit::Kilo, Unit::Gram);
            lemma_compose_pair(s, Unit::Gram, Unit::Kilo, Unit::Ton);
            assert forall|a: Unit, b: Unit| t.contains_pair(a, b) by {
                assert(a == Unit::Lb || a == Unit::Kilo || a == Unit::Ton || a == Unit::Gram);
                assert(b == Unit::Lb || b == Unit::Kilo || b == Unit::Ton || b == Unit::Gram);
            }
        }
        t
    }
}

} // verus!
