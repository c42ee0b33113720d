//! The values of the fields of a report: texts, counts, quotients, and the
//! lack of a value.

use crate::decimal::{change, whole, Decimal, Number};
use crate::text::{append_decimal, compare_text, decimal, text_order, Order};
use vstd::prelude::*;
use vstd::std_specs::cmp::PartialEqSpecImpl;
use vstd::string::*;

verus! {

/// On which side a value is padded to the width of its column.
#[derive(Clone, Copy, Debug, PartialEq, Eq, Structural)]
pub enum Pad {
    /// The padding stands on the left: the value is aligned to the right.
    Left,
    /// The padding stands on the right: the value is aligned to the left.
    Right,
    /// The padding is shared between both sides: the value is centred.
    Middle,
}

impl Pad {
    /// How much of `padding` stands on the left and how much on the right.
    /// Of an odd padding in the middle the larger half stands on the right.
    pub open spec fn split(self, padding: nat) -> (nat, nat) {
        match self {
            Pad::Left => (padding, 0),
            Pad::Right => (0, padding),
            Pad::Middle => (padding / 2, (padding - padding / 2) as nat),
        }
    }

    /// How much of `padding` stands on the left and how much on the right.
    pub fn padding(&self, padding: usize) -> (sides: (usize, usize))
        ensures
            sides.0 == self.split(padding as nat).0,
            sides.1 == self.split(padding as nat).1,
            sides.0 + sides.1 == padding,
    {
        match self {
            Pad::Left => (padding, 0),
            Pad::Right => (0, padding),
            Pad::Middle => {
                let left_padding: usize = padding / 2;
                (left_padding, padding - left_padding)
            },
        }
    }
}

/// What a value of a field is.
pub enum Cell {
    Text(Seq<char>),
    Integer(u64),
    Decimal(Number),
    Missing,
}

impl Cell {
    /// The place of the kind of a value among the kinds: texts come first,
    /// then counts, then quotients, and missing values last.
    pub open spec fn rank(self) -> int {
        match self {
            Cell::Text(_) => 0,
            Cell::Integer(_) => 1,
            Cell::Decimal(_) => 2,
            Cell::Missing => 4,
        }
    }

    /// Whether two values are the same: of the same kind and equal. An
    /// undefined quotient is the same as no value.
    pub open spec fn same(self, other: Cell) -> bool {
        match (self, other) {
            (Cell::Text(a), Cell::Text(b)) => a == b,
            (Cell::Integer(a), Cell::Integer(b)) => a == b,
            (Cell::Decimal(a), Cell::Decimal(b)) => a.same(b),
            (Cell::Missing, Cell::Missing) => true,
            _ => false,
        }
    }

    /// The order of two values: by their kind where the kinds differ; texts
    /// by their bytes, counts and quotients by their size. An undefined
    /// quotient has no place among the quotients.
    pub open spec fn order(self, other: Cell) -> Option<Order> {
        match (self, other) {
            (Cell::Text(a), Cell::Text(b)) => Some(text_order(a, b)),
            (Cell::Integer(a), Cell::Integer(b)) => Some(
                if a < b {
                    Order::Less
                } else if a == b {
                    Order::Equal
                } else {
                    Order::Greater
                },
            ),
            (Cell::Decimal(a), Cell::Decimal(b)) => a.order(b),
            (Cell::Missing, Cell::Missing) => Some(Order::Equal),
            _ => Some(
                if self.rank() < other.rank() {
                    Order::Less
                } else {
                    Order::Greater
                },
            ),
        }
    }

    /// How a value is shown: a text as it is, a count as a decimal numeral, a
    /// quotient with two decimal places, and a missing value as `N/A`.
    pub open spec fn shown(self) -> Seq<char> {
        match self {
            Cell::Text(text) => text,
            Cell::Integer(count) => decimal(count as nat),
            Cell::Decimal(number) => number.shown(),
            Cell::Missing => seq!['N', '/', 'A'],
        }
    }

    /// Whether a value is a count or a quotient.
    pub open spec fn is_numeric(self) -> bool {
        self is Integer || self is Decimal
    }

    /// The side on which a value is padded: a number on the left, anything
    /// else on the right.
    pub open spec fn pad(self) -> Pad {
        if self.is_numeric() {
            Pad::Left
        } else {
            Pad::Right
        }
    }

    /// The change from `self` to `to` in percent, for two counts or two
    /// quotients; there is none for other values.
    pub open spec fn change_to(self, to: Cell) -> Option<Seq<char>> {
        match (self, to) {
            (Cell::Integer(a), Cell::Integer(b)) => Some(change(whole(a as nat), whole(b as nat))),
            (Cell::Decimal(a), Cell::Decimal(b)) => Some(change(a, b)),
            _ => None,
        }
    }
}

/// The value of a field of a report.
pub enum Scalar {
    Text(String),
    Integer(u64),
    Decimal(Decimal),
    Missing,
}

impl View for Scalar {
    type V = Cell;

    open spec fn view(&self) -> Cell {
        match self {
            Scalar::Text(text) => Cell::Text(text@),
            Scalar::Integer(count) => Cell::Integer(*count),
            Scalar::Decimal(number) => Cell::Decimal(number@),
            Scalar::Missing => Cell::Missing,
        }
    }
}

impl PartialEq for Scalar {
    fn eq(&self, other: &Scalar) -> (same: bool) {
        match (self, other) {
            (Scalar::Text(a), Scalar::Text(b)) => *a == *b,
            (Scalar::Integer(a), Scalar::Integer(b)) => *a == *b,
            (Scalar::Decimal(a), Scalar::Decimal(b)) => a.same(b),
            (Scalar::Missing, Scalar::Missing) => true,
            _ => false,
        }
    }
}

impl PartialEqSpecImpl for Scalar {
    open spec fn obeys_eq_spec() -> bool {
        true
    }

    open spec fn eq_spec(&self, other: &Scalar) -> bool {
        self@.same(other@)
    }
}

impl Scalar {
    /// A count, or no value where there is none.
    pub fn from_count(count: Option<u64>) -> (value: Scalar)
        ensures
            value@ == match count {
                Some(n) => Cell::Integer(n),
                None => Cell::Missing,
            },
    {
        match count {
            Some(n) => Scalar::Integer(n),
            None => Scalar::Missing,
        }
    }

    /// A text, or no value where there is none.
    pub fn from_text(text: Option<String>) -> (value: Scalar)
        ensures
            value@ == match text {
                Some(t) => Cell::Text(t@),
                None => Cell::Missing,
            },
    {
        match text {
            Some(t) => Scalar::Text(t),
            None => Scalar::Missing,
        }
    }

    /// A copy of the value.
    pub fn duplicate(&self) -> (copy: Scalar)
        ensures
            copy == *self,
    {
        match self {
            Scalar::Text(text) => Scalar::Text(text.clone()),
            Scalar::Integer(count) => Scalar::Integer(*count),
            Scalar::Decimal(number) => Scalar::Decimal(*number),
            Scalar::Missing => Scalar::Missing,
        }
    }

    /// The side on which the value is padded.
    pub fn pad(&self) -> (pad: Pad)
        ensures
            pad == self@.pad(),
    {
        match self {
            Scalar::Integer(_) | Scalar::Decimal(_) => Pad::Left,
            _ => Pad::Right,
        }
    }

    /// Whether the value is a count or a quotient.
    pub fn is_numeric(&self) -> (numeric: bool)
        ensures
            numeric == self@.is_numeric(),
    {
        match self {
            Scalar::Integer(_) | Scalar::Decimal(_) => true,
            _ => false,
        }
    }

    /// The order of two values.
    pub fn order(&self, other: &Scalar) -> (order: Option<Order>)
        ensures
            order == self@.order(other@),
    {
        match (self, other) {
            (Scalar::Text(a), Scalar::Text(b)) => Some(compare_text(a.as_str(), b.as_str())),
            (Scalar::Integer(a), Scalar::Integer(b)) => Some(
                if *a < *b {
                    Order::Less
                } else if *a == *b {
                    Order::Equal
                } else {
                    Order::Greater
                },
            ),
            (Scalar::Decimal(a), Scalar::Decimal(b)) => a.order(b),
            (Scalar::Missing, Scalar::Missing) => Some(Order::Equal),
            _ => Some(
                if self.rank() < other.rank() {
                    Order::Less
                } else {
                    Order::Greater
                },
            ),
        }
    }

    /// The place of the kind of the value among the kinds.
    pub fn rank(&self) -> (rank: u8)
        ensures
            rank == self@.rank(),
    {
        match self {
            Scalar::Text(_) => 0,
            Scalar::Integer(_) => 1,
            Scalar::Decimal(_) => 2,
            Scalar::Missing => 4,
        }
    }

    /// The value as it is shown.
    pub fn display(&self) -> (text: String)
        ensures
            text@ == self@.shown(),
    {
        match self {
            Scalar::Text(text) => text.clone(),
            Scalar::Integer(count) => {
                let mut text = String::new();
                append_decimal(&mut text, *count as u128);
                assert(text@ =~= self@.shown());
                text
            },
            Scalar::Decimal(number) => {
                let mut text = String::new();
                number.append_to(&mut text);
                assert(text@ =~= self@.shown());
                text
            },
            Scalar::Missing => {
                proof {
                    reveal_strlit("N/A");
                }
                let text = String::from_str("N/A");
                assert(text@ =~= self@.shown());
                text
            },
        }
    }

    /// The change from `self` to `to` in percent, for two counts or two
    /// quotients.
    pub fn diff(&self, to: &Scalar) -> (text: Option<String>)
        ensures
            match text {
                Some(t) => self@.change_to(to@) == Some(t@),
                None => self@.change_to(to@) is None,
            },
    {
        match (self, to) {
            (Scalar::Integer(a), Scalar::Integer(b)) => {
                let mut text = String::new();
                Decimal::from_count(*a).append_change(&Decimal::from_count(*b), &mut text);
                assert(text@ =~= self@.change_to(to@)->0);
                Some(text)
            },
            (Scalar::Decimal(a), Scalar::Decimal(b)) => {
                let mut text = String::new();
                a.append_change(b, &mut text);
                assert(text@ =~= self@.change_to(to@)->0);
                Some(text)
            },
            _ => None,
        }
    }
}

} // verus!
