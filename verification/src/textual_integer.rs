//! A signed arbitrary-precision decimal integer carried as a canonical digit
//! string. Values are immutable: every operation returns a new instance.
use crate::decimal::canon_digits;
use crate::decimal::canon_int;
use crate::decimal::digits_val;
use crate::decimal::lemma_digits_val_bound;
use crate::decimal::pow_int;
use crate::decimal::str_int;
use crate::score::textual_integer_add;
use crate::score::textual_integer_is_less;
use crate::score::textual_integer_is_positive;
use crate::score::textual_integer_is_smaller;
use crate::score::textual_integer_mul;
use crate::score::textual_integer_pow;
use crate::score::textual_integer_sub;
use vstd::prelude::*;
use vstd::string::*;

verus! {

/// An exact signed decimal integer, stored as its canonical decimal string.
#[derive(Debug)]
pub struct TextualInteger {
    value: String,
}

impl View for TextualInteger {
    type V = Seq<char>;

    closed spec fn view(&self) -> Seq<char> {
        self.value@
    }
}

impl TextualInteger {
    /// The stored string is a canonical signed decimal string.
    pub open spec fn wf(self) -> bool {
        canon_int(self@)
    }

    /// The integer this value stands for.
    pub open spec fn as_int(self) -> int {
        str_int(self@)
    }

    /// Wraps a decimal string; the caller supplies it in canonical form.
    pub fn new(value: &str) -> (r: Self)
        requires
            canon_int(value@),
        ensures
            r@ == value@,
            r.wf(),
            r.as_int() == str_int(value@),
    {
        TextualInteger { value: value.to_owned() }
    }

    /// The decimal string of this value.
    pub fn to_string(&self) -> (r: String)
        ensures
            r@ == self@,
    {
        self.value.clone()
    }

    /// True when the value does not start with '-'; zero counts as positive.
    pub fn is_positive(&self) -> (r: bool)
        requires
            self.wf(),
        ensures
            r == (self.as_int() >= 0),
    {
        textual_integer_is_positive(self.value.as_str())
    }

    /// Signed addition.
    pub fn add(&self, other: &Self) -> (r: Self)
        requires
            self.wf(),
            other.wf(),
        ensures
            r.wf(),
            r.as_int() == self.as_int() + other.as_int(),
    {
        TextualInteger { value: textual_integer_add(self.value.as_str(), other.value.as_str()) }
    }

    /// Signed subtraction.
    pub fn sub(&self, other: &Self) -> (r: Self)
        requires
            self.wf(),
            other.wf(),
        ensures
            r.wf(),
            r.as_int() == self.as_int() - other.as_int(),
    {
        TextualInteger { value: textual_integer_sub(self.value.as_str(), other.value.as_str()) }
    }

    /// Signed multiplication.
    pub fn mul(&self, other: &Self) -> (r: Self)
        requires
            self.wf(),
            other.wf(),
            self@.len() + other@.len() <= 0x8000000,
        ensures
            r.wf(),
            r.as_int() == self.as_int() * other.as_int(),
    {
        TextualInteger { value: textual_integer_mul(self.value.as_str(), other.value.as_str()) }
    }

    /// Exponentiation by squaring of a non-negative value.
    pub fn pow(&self, exponent: u32) -> (r: Self)
        requires
            exponent == 0 || (self.wf() && self.as_int() >= 0 && self@.len() * exponent
                <= 0x1000000),
        ensures
            r.wf(),
            r.as_int() == pow_int(digits_val(self@), exponent as nat),
            self.wf() && self.as_int() >= 0 ==> r.as_int() == pow_int(
                self.as_int(),
                exponent as nat,
            ),
            r.as_int() >= 0,
    {
        proof {
            // A well-formed non-negative value is an unsigned digit string,
            // so its signed and unsigned readings agree.
            if self.wf() && self.as_int() >= 0 && !canon_digits(self@) {
                assert(str_int(self@) == -digits_val(self@.skip(1)));
            }
        }
        let r = TextualInteger { value: textual_integer_pow(self.value.as_str(), exponent) };
        proof {
            lemma_digits_val_bound(r@);
        }
        r
    }

    /// Signed order: true exactly when this value is below the other.
    pub fn is_less(&self, other: &Self) -> (r: bool)
        requires
            self.wf(),
            other.wf(),
        ensures
            r == (self.as_int() < other.as_int()),
    {
        textual_integer_is_less(self.value.as_str(), other.value.as_str())
    }

    /// Magnitude order on non-negative values: shorter digit strings are
    /// smaller, equal-length strings compare digit by digit.
    pub fn is_smaller(&self, other: &Self) -> (r: bool)
        requires
            self.wf(),
            self.as_int() >= 0,
            other.wf(),
            other.as_int() >= 0,
        ensures
            r == (self.as_int() < other.as_int()),
    {
        proof {
            if !canon_digits(self@) {
                assert(str_int(self@) == -digits_val(self@.skip(1)));
            }
            if !canon_digits(other@) {
                assert(str_int(other@) == -digits_val(other@.skip(1)));
            }
        }
        textual_integer_is_smaller(self.value.as_str(), other.value.as_str())
    }
}

impl Clone for TextualInteger {
    /// Clones preserve the stored string exactly.
    fn clone(&self) -> (r: Self)
        ensures
            r == *self,
    {
        TextualInteger { value: self.value.clone() }
    }
}

impl PartialEq for TextualInteger {
    fn eq(&self, other: &Self) -> (r: bool) {
        self.value == other.value
    }
}

impl Eq for TextualInteger {

}

impl vstd::std_specs::cmp::PartialEqSpecImpl for TextualInteger {
    open spec fn obeys_eq_spec() -> bool {
        true
    }

    open spec fn eq_spec(&self, other: &Self) -> bool {
        self@ == other@
    }
}

/// The textual integer type used throughout the score and vote components.
pub type TextualIntegerType = TextualInteger;

} // verus!
