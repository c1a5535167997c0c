//! The values of label fields, and how they are compared.
use vstd::prelude::*;

use crate::fractions::{fraction_units, whole_units, Scaled};

verus! {

/// A value of a label field, or one that a field is compared with.
pub enum LabelValue {
    Null,
    Bool(bool),
    /// A whole number from 0 on.
    Unsigned(u64),
    /// A whole number that may be negative.
    Signed(i64),
    /// Any other number, by its double-precision bit pattern.
    Fraction(u64),
    Text(String),
    /// A list or an object, by its JSON text.
    Other(String),
}

/// What a value is, whichever way a whole number is held.
pub enum ValueView {
    Null,
    Bool(bool),
    Number(int),
    Fraction(u64),
    Text(Seq<char>),
    Other(Seq<char>),
}

impl View for LabelValue {
    type V = ValueView;

    open spec fn view(&self) -> ValueView {
        match *self {
            LabelValue::Null => ValueView::Null,
            LabelValue::Bool(flag) => ValueView::Bool(flag),
            LabelValue::Unsigned(number) => ValueView::Number(number as int),
            LabelValue::Signed(number) => ValueView::Number(number as int),
            LabelValue::Fraction(bits) => ValueView::Fraction(bits),
            LabelValue::Text(text) => ValueView::Text(text@),
            LabelValue::Other(text) => ValueView::Other(text@),
        }
    }
}

/// The number that a value is, as a multiple of the least positive number that a bit pattern
/// stands for.
pub open spec fn units_of(value: ValueView) -> Option<int> {
    match value {
        ValueView::Number(number) => Some(whole_units(number)),
        ValueView::Fraction(bits) => Some(fraction_units(bits)),
        _ => None,
    }
}

/// Both are the same number, or the same value that is none.
pub open spec fn equal(a: ValueView, b: ValueView) -> bool {
    match (units_of(a), units_of(b)) {
        (Some(x), Some(y)) => x == y,
        _ => a == b,
    }
}

/// Both are numbers and the first is the lesser.
pub open spec fn less(a: ValueView, b: ValueView) -> bool {
    match (units_of(a), units_of(b)) {
        (Some(x), Some(y)) => x < y,
        _ => false,
    }
}

/// Both are numbers and the first is not the greater.
pub open spec fn at_most(a: ValueView, b: ValueView) -> bool {
    match (units_of(a), units_of(b)) {
        (Some(x), Some(y)) => x <= y,
        _ => false,
    }
}

/// The value equals one of a list.
pub open spec fn is_one_of(value: ValueView, list: Seq<LabelValue>) -> bool {
    exists|i: int| 0 <= i < list.len() && equal(value, (#[trigger] list[i])@)
}

/// How a field is compared.
pub enum CompareOp {
    /// The field equals the value.
    Eq(LabelValue),
    /// The field does not equal the value.
    Ne(LabelValue),
    /// The field is a lesser number.
    Lt(LabelValue),
    /// The field is a lesser number or the same.
    Lte(LabelValue),
    /// The field is a greater number.
    Gt(LabelValue),
    /// The field is a greater number or the same.
    Gte(LabelValue),
    /// The field is among the values.
    In(Vec<LabelValue>),
    /// The field is not among the values.
    Nin(Vec<LabelValue>),
}

impl CompareOp {
    /// The comparison holds for what a document has under the field. Where it has nothing,
    /// there is nothing to compare, and no comparison holds.
    pub open spec fn holds(self, value: Option<ValueView>) -> bool {
        match value {
            None => false,
            Some(value) => match self {
                CompareOp::Eq(other) => equal(value, other@),
                CompareOp::Ne(other) => !equal(value, other@),
                CompareOp::Lt(other) => less(value, other@),
                CompareOp::Lte(other) => at_most(value, other@),
                CompareOp::Gt(other) => less(other@, value),
                CompareOp::Gte(other) => at_most(other@, value),
                CompareOp::In(list) => is_one_of(value, list@),
                CompareOp::Nin(list) => !is_one_of(value, list@),
            },
        }
    }

    /// Whether the comparison holds for a value.
    pub fn accepts(&self, value: &LabelValue) -> (r: bool)
        ensures
            r == self.holds(Some(value@)),
    {
        match self {
            CompareOp::Eq(other) => value.equals(other),
            CompareOp::Ne(other) => !value.equals(other),
            CompareOp::Lt(other) => is_less(value, other),
            CompareOp::Lte(other) => is_at_most(value, other),
            CompareOp::Gt(other) => is_less(other, value),
            CompareOp::Gte(other) => is_at_most(other, value),
            CompareOp::In(list) => is_listed(value, list),
            CompareOp::Nin(list) => !is_listed(value, list),
        }
    }
}

impl LabelValue {
    /// Whether two values are the same, held in the same way but for whole numbers.
    pub fn same(&self, other: &LabelValue) -> (r: bool)
        ensures
            r == (self@ == other@),
    {
        match (self, other) {
            (LabelValue::Null, LabelValue::Null) => true,
            (LabelValue::Bool(a), LabelValue::Bool(b)) => *a == *b,
            (LabelValue::Fraction(a), LabelValue::Fraction(b)) => *a == *b,
            (LabelValue::Text(a), LabelValue::Text(b)) => *a == *b,
            (LabelValue::Other(a), LabelValue::Other(b)) => *a == *b,
            _ => match (self.number(), other.number()) {
                (Some(a), Some(b)) => a == b,
                _ => false,
            },
        }
    }

    /// Whether two values are equal: the same number, or the same value that is none.
    pub fn equals(&self, other: &LabelValue) -> (r: bool)
        ensures
            r == equal(self@, other@),
    {
        match (self.scaled(), other.scaled()) {
            (Some(x), Some(y)) => !x.less(&y) && !y.less(&x),
            _ => self.same(other),
        }
    }

    /// The number that the value is, if it is one.
    fn scaled(&self) -> (n: Option<Scaled>)
        ensures
            match n {
                Some(n) => units_of(self@) == Some(n.units()),
                None => units_of(self@) is None,
            },
    {
        match self {
            LabelValue::Fraction(bits) => Some(Scaled::of_fraction(*bits)),
            _ => match self.number() {
                Some(number) => Some(Scaled::of_whole(number)),
                None => None,
            },
        }
    }

    /// The whole number that the value is held as.
    pub(crate) fn number(&self) -> (n: Option<i128>)
        ensures
            match n {
                Some(n) => self@ == ValueView::Number(n as int) && i64::MIN <= n <= u64::MAX,
                None => !(self@ is Number),
            },
    {
        match self {
            LabelValue::Unsigned(number) => Some(*number as i128),
            LabelValue::Signed(number) => Some(*number as i128),
            _ => None,
        }
    }

    /// Whether the value is `true`.
    pub fn is_true(&self) -> (r: bool)
        ensures
            r == (self@ == ValueView::Bool(true)),
    {
        match self {
            LabelValue::Bool(flag) => *flag,
            _ => false,
        }
    }

    /// A value of its own that is the same.
    pub(crate) fn copied(&self) -> (copy: LabelValue)
        ensures
            copy@ == self@,
    {
        match self {
            LabelValue::Null => LabelValue::Null,
            LabelValue::Bool(flag) => LabelValue::Bool(*flag),
            LabelValue::Unsigned(number) => LabelValue::Unsigned(*number),
            LabelValue::Signed(number) => LabelValue::Signed(*number),
            LabelValue::Fraction(bits) => LabelValue::Fraction(*bits),
            LabelValue::Text(text) => LabelValue::Text(text.clone()),
            LabelValue::Other(text) => LabelValue::Other(text.clone()),
        }
    }
}

fn is_less(a: &LabelValue, b: &LabelValue) -> (r: bool)
    ensures
        r == less(a@, b@),
{
    match (a.scaled(), b.scaled()) {
        (Some(x), Some(y)) => x.less(&y),
        _ => false,
    }
}

fn is_at_most(a: &LabelValue, b: &LabelValue) -> (r: bool)
    ensures
        r == at_most(a@, b@),
{
    match (a.scaled(), b.scaled()) {
        (Some(x), Some(y)) => !y.less(&x),
        _ => false,
    }
}

fn is_listed(value: &LabelValue, list: &Vec<LabelValue>) -> (r: bool)
    ensures
        r == is_one_of(value@, list@),
{
    let n: usize = list.len();
    for i in 0..n
        invariant
            n == list@.len(),
            forall|j: int| 0 <= j < i ==> !equal(value@, (#[trigger] list@[j])@),
    {
        if value.equals(&list[i]) {
            assert(equal(value@, list@[i as int]@));
            return true;
        }
    }
    false
}

} // verus!
