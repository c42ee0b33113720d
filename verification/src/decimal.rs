//! Quotients of counts as decimal fractions with six places, and how they are
//! shown, ordered and compared.

use crate::text::{append_decimal, append_decimal_padded, decimal, decimal_padded, Order};
use vstd::prelude::*;
use vstd::string::*;

verus! {

/// The largest dividend of a quotient: a thousand times the largest count.
pub open spec fn max_dividend() -> nat {
    1000 * (u64::MAX as nat)
}

/// The largest number of millionths that a quotient has.
pub open spec fn max_millionths() -> nat {
    max_dividend() * 1_000_000
}

/// A quotient of two counts: a number of millionths, or what a division by
/// zero gives.
pub enum Number {
    /// This many millionths.
    Finite(nat),
    /// A positive count divided by zero.
    Infinite,
    /// Zero divided by zero.
    Undefined,
}

/// The quotient of two counts, cut off after six decimal places.
pub open spec fn quotient(dividend: nat, divisor: nat) -> Number {
    if divisor == 0 {
        if dividend == 0 {
            Number::Undefined
        } else {
            Number::Infinite
        }
    } else {
        Number::Finite(dividend * 1_000_000 / divisor)
    }
}

/// A whole count as a number.
pub open spec fn whole(count: nat) -> Number {
    Number::Finite(count * 1_000_000)
}

/// `amount` of units of which `unit` make one, rounded to a whole number of
/// units; a half is rounded up.
pub open spec fn rounded(amount: nat, unit: nat) -> nat {
    (amount + unit / 2) / unit
}

/// A number of hundredths with two decimal places.
pub open spec fn two_places(hundredths: nat) -> Seq<char> {
    decimal(hundredths / 100) + seq!['.'] + decimal_padded(hundredths % 100, 2)
}

/// A number of tenths with one decimal place.
pub open spec fn one_place(tenths: nat) -> Seq<char> {
    decimal(tenths / 10) + seq!['.'] + decimal(tenths % 10)
}

impl Number {
    /// How a number is shown: rounded to two decimal places, `inf` for an
    /// infinite one and `NaN` for an undefined one.
    pub open spec fn shown(self) -> Seq<char> {
        match self {
            Number::Finite(millionths) => two_places(rounded(millionths, 10_000)),
            Number::Infinite => seq!['i', 'n', 'f'],
            Number::Undefined => seq!['N', 'a', 'N'],
        }
    }

    /// Whether two numbers are the same. An undefined number is the same as
    /// none, not even as itself.
    pub open spec fn same(self, other: Number) -> bool {
        match (self, other) {
            (Number::Finite(a), Number::Finite(b)) => a == b,
            (Number::Infinite, Number::Infinite) => true,
            _ => false,
        }
    }

    /// The order of two numbers: an infinite one comes after every finite
    /// one, and an undefined one has no place.
    pub open spec fn order(self, other: Number) -> Option<Order> {
        match (self, other) {
            (Number::Undefined, _) => None,
            (_, Number::Undefined) => None,
            (Number::Infinite, Number::Infinite) => Some(Order::Equal),
            (Number::Infinite, Number::Finite(_)) => Some(Order::Greater),
            (Number::Finite(_), Number::Infinite) => Some(Order::Less),
            (Number::Finite(a), Number::Finite(b)) => Some(
                if a < b {
                    Order::Less
                } else if a == b {
                    Order::Equal
                } else {
                    Order::Greater
                },
            ),
        }
    }
}

/// The change from `from` to `to` as a share of `from`, in percent with one
/// decimal place and a sign where `to` is the smaller: `(to - from) / from`.
/// A division of a positive number by zero shows as `inf%`, and what has no
/// value as `NaN%`.
pub open spec fn change(from: Number, to: Number) -> Seq<char> {
    match (from, to) {
        (Number::Finite(a), Number::Finite(b)) => {
            if a == 0 {
                if b == 0 {
                    seq!['N', 'a', 'N', '%']
                } else {
                    seq!['i', 'n', 'f', '%']
                }
            } else if b < a {
                seq!['-'] + one_place(rounded(((a - b) * 1000) as nat, a)) + seq!['%']
            } else {
                one_place(rounded(((b - a) * 1000) as nat, a)) + seq!['%']
            }
        },
        (Number::Finite(_), Number::Infinite) => seq!['i', 'n', 'f', '%'],
        _ => seq!['N', 'a', 'N', '%'],
    }
}

/// What kind of quotient a `Decimal` is.
#[derive(Clone, Copy, Debug, PartialEq, Eq, Structural)]
pub enum DecimalKind {
    Finite,
    Infinite,
    Undefined,
}

/// A quotient of two counts.
#[derive(Clone, Copy, Debug)]
pub struct Decimal {
    kind: DecimalKind,
    millionths: u128,
}

impl View for Decimal {
    type V = Number;

    closed spec fn view(&self) -> Number {
        match self.kind {
            DecimalKind::Finite => Number::Finite(self.millionths as nat),
            DecimalKind::Infinite => Number::Infinite,
            DecimalKind::Undefined => Number::Undefined,
        }
    }
}

/// `amount` of units of which `unit` make one, rounded to a whole number of
/// units.
fn round(amount: u128, unit: u128) -> (units: u128)
    requires
        unit > 0,
        amount + unit / 2 <= u128::MAX,
    ensures
        units == rounded(amount as nat, unit as nat),
{
    (amount + unit / 2) / unit
}

/// Appends a number of the form `whole.fraction` where the fraction has
/// `places` digits.
fn append_places(line: &mut String, units: u128, places: usize)
    requires
        places == 1 || places == 2,
    ensures
        places == 1 ==> final(line)@ == old(line)@ + one_place(units as nat),
        places == 2 ==> final(line)@ == old(line)@ + two_places(units as nat),
{
    proof {
        reveal_strlit(".");
    }
    if places == 1 {
        append_decimal(line, units / 10);
        line.append(".");
        append_decimal(line, units % 10);
        assert(line@ =~= old(line)@ + one_place(units as nat));
    } else {
        append_decimal(line, units / 100);
        line.append(".");
        append_decimal_padded(line, units % 100, 2);
        assert(line@ =~= old(line)@ + two_places(units as nat));
    }
}

impl Decimal {
    #[verifier::type_invariant]
    spec fn bounded(self) -> bool {
        self.millionths <= max_millionths()
    }

    /// The quotient of two counts.
    pub fn ratio(dividend: u128, divisor: u64) -> (q: Decimal)
        requires
            dividend <= max_dividend(),
        ensures
            q@ == quotient(dividend as nat, divisor as nat),
    {
        if divisor == 0 {
            if dividend == 0 {
                Decimal { kind: DecimalKind::Undefined, millionths: 0 }
            } else {
                Decimal { kind: DecimalKind::Infinite, millionths: 0 }
            }
        } else {
            assert(dividend * 1_000_000 <= 1000 * 0xffff_ffff_ffff_ffff * 1_000_000) by (nonlinear_arith)
                requires
                    dividend <= 1000 * 0xffff_ffff_ffff_ffff,
            ;
            let scaled: u128 = dividend * 1_000_000;
            assert(scaled / (divisor as u128) <= scaled) by (nonlinear_arith)
                requires
                    divisor > 0,
                    scaled >= 0,
            ;
            Decimal { kind: DecimalKind::Finite, millionths: scaled / (divisor as u128) }
        }
    }

    /// A whole count as a quotient.
    pub fn from_count(count: u64) -> (q: Decimal)
        ensures
            q@ == whole(count as nat),
    {
        assert(count * 1_000_000 <= 1000 * 0xffff_ffff_ffff_ffff * 1_000_000) by (nonlinear_arith)
            requires
                count <= 0xffff_ffff_ffff_ffff,
        ;
        Decimal { kind: DecimalKind::Finite, millionths: count as u128 * 1_000_000 }
    }

    /// Appends the number as it is shown.
    pub fn append_to(&self, line: &mut String)
        ensures
            final(line)@ == old(line)@ + self@.shown(),
    {
        proof {
            use_type_invariant(self);
            reveal_strlit("inf");
            reveal_strlit("NaN");
        }
        match self.kind {
            DecimalKind::Finite => {
                append_places(line, round(self.millionths, 10_000), 2);
            },
            DecimalKind::Infinite => {
                line.append("inf");
                assert(line@ =~= old(line)@ + self@.shown());
            },
            DecimalKind::Undefined => {
                line.append("NaN");
                assert(line@ =~= old(line)@ + self@.shown());
            },
        }
    }

    /// Whether two numbers are the same.
    pub fn same(&self, other: &Decimal) -> (same: bool)
        ensures
            same == self@.same(other@),
    {
        match (self.kind, other.kind) {
            (DecimalKind::Finite, DecimalKind::Finite) => self.millionths == other.millionths,
            (DecimalKind::Infinite, DecimalKind::Infinite) => true,
            _ => false,
        }
    }

    /// The order of two numbers.
    pub fn order(&self, other: &Decimal) -> (order: Option<Order>)
        ensures
            order == self@.order(other@),
    {
        match (self.kind, other.kind) {
            (DecimalKind::Undefined, _) => None,
            (_, DecimalKind::Undefined) => None,
            (DecimalKind::Infinite, DecimalKind::Infinite) => Some(Order::Equal),
            (DecimalKind::Infinite, DecimalKind::Finite) => Some(Order::Greater),
            (DecimalKind::Finite, DecimalKind::Infinite) => Some(Order::Less),
            (DecimalKind::Finite, DecimalKind::Finite) => Some(
                if self.millionths < other.millionths {
                    Order::Less
                } else if self.millionths == other.millionths {
                    Order::Equal
                } else {
                    Order::Greater
                },
            ),
        }
    }

    /// Appends the change from `self` to `to` in percent.
    pub fn append_change(&self, to: &Decimal, line: &mut String)
        ensures
            final(line)@ == old(line)@ + change(self@, to@),
    {
        proof {
            use_type_invariant(self);
            use_type_invariant(to);
            reveal_strlit("inf%");
            reveal_strlit("NaN%");
            reveal_strlit("-");
            reveal_strlit("%");
        }
        match (self.kind, to.kind) {
            (DecimalKind::Finite, DecimalKind::Finite) => {
                let a: u128 = self.millionths;
                let b: u128 = to.millionths;
                if a == 0 {
                    if b == 0 {
                        line.append("NaN%");
                    } else {
                        line.append("inf%");
                    }
                    assert(line@ =~= old(line)@ + change(self@, to@));
                } else {
                    let distance: u128 = if b < a {
                        a - b
                    } else {
                        b - a
                    };
                    assert(distance * 1000 + a / 2 <= u128::MAX) by (nonlinear_arith)
                        requires
                            distance <= 1000 * 0xffff_ffff_ffff_ffff * 1_000_000,
                            a <= 1000 * 0xffff_ffff_ffff_ffff * 1_000_000,
                            u128::MAX == 0xffff_ffff_ffff_ffff_ffff_ffff_ffff_ffff,
                    ;
                    let tenths: u128 = round(distance * 1000, a);
                    if b < a {
                        line.append("-");
                    }
                    append_places(line, tenths, 1);
                    line.append("%");
                    assert(line@ =~= old(line)@ + change(self@, to@));
                }
            },
            (DecimalKind::Finite, DecimalKind::Infinite) => {
                line.append("inf%");
                assert(line@ =~= old(line)@ + change(self@, to@));
            },
            _ => {
                line.append("NaN%");
                assert(line@ =~= old(line)@ + change(self@, to@));
            },
        }
    }
}

} // verus!
