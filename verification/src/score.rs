//! Signed arbitrary-precision decimal arithmetic on digit strings, and the
//! reputation level and vote-weight functions built on top of it.
//!
//! A value is a string of decimal digits, optionally preceded by `-`, in
//! canonical form: no leading zeros (except the single digit "0"), and zero
//! is never written "-0". Every function below states its result as an exact
//! integer over that model.
use crate::decimal::all_below_ten;
use crate::decimal::canon_digits;
use crate::decimal::canon_int;
use crate::decimal::digit_at;
use crate::decimal::digit_get;
use crate::decimal::digit_val;
use crate::decimal::digits_to_str;
use crate::decimal::digits_val;
use crate::decimal::is_digit;
use crate::decimal::le_prefix_val;
use crate::decimal::le_val;
use crate::decimal::lemma_canon_len_lt;
use crate::decimal::lemma_canon_len_le;
use crate::decimal::lemma_le_val_wide_suffix;
use crate::decimal::lemma_le_val_wide_update;
use crate::decimal::lemma_le_val_wide_zero;
use crate::decimal::lemma_pow10_adds;
use crate::decimal::lemma_pow_int_adds;
use crate::decimal::lemma_pow_int_bound;
use crate::decimal::le_val_wide;
use crate::decimal::pow_int;
use crate::decimal::lemma_canon_lower;
use crate::decimal::lemma_canon_zero;
use crate::decimal::lemma_digits_val_bound;
use crate::decimal::lemma_digits_val_lex;
use crate::decimal::lemma_le_prefix_val_step;
use crate::decimal::lemma_le_val_bound;
use crate::decimal::lemma_le_val_push;
use crate::decimal::lemma_pow10_increases;
use crate::decimal::lemma_pow10_pos;
use crate::decimal::pow10;
use crate::decimal::str_int;
use crate::decimal::str_to_digits;
use crate::decimal::trim_zeros;
use vstd::prelude::*;
use vstd::string::*;

verus! {

/// A decimal integer string, as stored and exchanged by the score functions.
pub type TextxualInteger = String;

/// True when `value` does not start with '-'; zero counts as positive.
pub fn textual_integer_is_positive(value: &str) -> (r: bool)
    requires
        canon_int(value@),
    ensures
        r == (str_int(value@) >= 0),
{
    let n = value.unicode_len();
    let neg = n > 0 && value.get_char(0) == '-';
    proof {
        if !neg {
            crate::decimal::lemma_digits_val_bound(value@);
        } else {
            assert(digits_val(value@.skip(1)) > 0);
        }
    }
    !neg
}

/// Splits off a leading minus sign: returns the sign and the magnitude.
fn strip_minus(value: &str) -> (res: (bool, &str))
    requires
        canon_int(value@),
    ensures
        canon_digits(res.1@),
        res.0 ==> value@.len() >= 2 && value@[0] == '-' && res.1@ == value@.skip(1) && digits_val(
            res.1@,
        ) > 0,
        !res.0 ==> res.1@ == value@,
        str_int(value@) == if res.0 {
            -digits_val(res.1@)
        } else {
            digits_val(res.1@)
        },
{
    let n = value.unicode_len();
    if n > 0 && value.get_char(0) == '-' {
        let mag = value.substring_char(1, n);
        proof {
            assert(value@.subrange(1, n as int) =~= value@.skip(1));
        }
        (true, mag)
    } else {
        (false, value)
    }
}

/// Prepends a minus sign to a positive magnitude.
fn neg_of(mag: &str) -> (r: String)
    requires
        canon_digits(mag@),
        digits_val(mag@) > 0,
    ensures
        canon_int(r@),
        str_int(r@) == -digits_val(mag@),
        r@ == seq!['-'] + mag@,
{
    proof {
        reveal_strlit("-");
    }
    let mut r = String::from_str("-");
    r.append(mag);
    proof {
        assert(r@ =~= seq!['-'] + mag@);
        assert(r@[0] == '-');
        assert(r@.skip(1) =~= mag@);
    }
    r
}

/// The canonical string "0".
pub(crate) fn zero_string() -> (r: String)
    ensures
        canon_digits(r@),
        digits_val(r@) == 0,
        r@ =~= seq!['0'],
{
    proof {
        reveal_strlit("0");
    }
    let r = String::from_str("0");
    proof {
        assert(r@ =~= seq!['0']);
        assert(r@.len() == 1);
        assert(r@.last() == '0');
        assert(r@.drop_last() =~= Seq::<char>::empty());
        assert(digits_val(Seq::<char>::empty()) == 0);
        assert(digits_val(r@) == digits_val(r@.drop_last()) * 10 + digit_val(r@.last()));
        assert(digit_val('0') == 0);
    }
    r
}

/// The canonical string "1".
fn one_string() -> (r: String)
    ensures
        canon_digits(r@),
        digits_val(r@) == 1,
        r@ =~= seq!['1'],
{
    proof {
        reveal_strlit("1");
    }
    let r = String::from_str("1");
    proof {
        assert(r@ =~= seq!['1']);
        assert(r@.len() == 1);
        assert(r@.last() == '1');
        assert(r@.drop_last() =~= Seq::<char>::empty());
        assert(digits_val(Seq::<char>::empty()) == 0);
        assert(digits_val(r@) == digits_val(r@.drop_last()) * 10 + digit_val(r@.last()));
        assert(digit_val('1') == 1);
    }
    r
}

/// Adds two unsigned decimal strings digit by digit with carries.
pub fn textual_integer_add_positive(value1: &str, value2: &str) -> (r: String)
    requires
        canon_digits(value1@),
        canon_digits(value2@),
    ensures
        canon_digits(r@),
        digits_val(r@) == digits_val(value1@) + digits_val(value2@),
{
    let d1 = str_to_digits(value1);
    let d2 = str_to_digits(value2);
    let n1 = d1.len();
    let n2 = d2.len();
    let max_len = if n1 > n2 {
        n1
    } else {
        n2
    };
    let mut out: Vec<u8> = Vec::new();
    let mut carry: u8 = 0;
    let mut i: usize = 0;
    while i < max_len
        invariant
            n1 == d1@.len(),
            n2 == d2@.len(),
            max_len == if n1 > n2 {
                n1
            } else {
                n2
            },
            all_below_ten(d1@),
            all_below_ten(d2@),
            0 <= i <= max_len,
            out@.len() == i,
            all_below_ten(out@),
            carry <= 1,
            le_val(out@) + carry * pow10(i as nat) == le_prefix_val(d1@, i as int) + le_prefix_val(
                d2@,
                i as int,
            ),
        decreases max_len - i,
    {
        let a = digit_get(&d1, i);
        let b = digit_get(&d2, i);
        let sum: u8 = a + b + carry;
        let dig: u8 = sum % 10;
        let new_carry: u8 = sum / 10;
        proof {
            let gi = i as int;
            lemma_le_prefix_val_step(d1@, gi);
            lemma_le_prefix_val_step(d2@, gi);
            lemma_le_val_push(out@, dig);
            assert(dig + 10 * new_carry == a + b + carry);
            let p = pow10(i as nat);
            assert(pow10((i + 1) as nat) == 10 * p);
            assert((a + b + carry) * p == a * p + b * p + carry * p) by (nonlinear_arith);
            assert((dig + 10 * new_carry) * p == dig * p + new_carry * (10 * p))
                by (nonlinear_arith);
        }
        out.push(dig);
        carry = new_carry;
        i = i + 1;
    }
    if carry > 0 {
        proof {
            lemma_le_val_push(out@, carry);
        }
        out.push(carry);
    }
    proof {
        assert(d1@.take(n1 as int) =~= d1@);
        assert(d2@.take(n2 as int) =~= d2@);
        assert(le_prefix_val(d1@, max_len as int) == le_val(d1@));
        assert(le_prefix_val(d2@, max_len as int) == le_val(d2@));
    }
    let mut out = out;
    trim_zeros(&mut out);
    digits_to_str(&out)
}

/// Subtracts the smaller unsigned decimal string from the larger, digit by
/// digit with borrows.
pub fn textual_integer_sub_positive(value1: &str, value2: &str) -> (r: String)
    requires
        canon_digits(value1@),
        canon_digits(value2@),
        digits_val(value1@) >= digits_val(value2@),
    ensures
        canon_digits(r@),
        digits_val(r@) == digits_val(value1@) - digits_val(value2@),
{
    let d1 = str_to_digits(value1);
    let d2 = str_to_digits(value2);
    let n1 = d1.len();
    let n2 = d2.len();
    let max_len = if n1 > n2 {
        n1
    } else {
        n2
    };
    let mut out: Vec<u8> = Vec::new();
    let mut borrow: u8 = 0;
    let mut i: usize = 0;
    while i < max_len
        invariant
            n1 == d1@.len(),
            n2 == d2@.len(),
            max_len == if n1 > n2 {
                n1
            } else {
                n2
            },
            all_below_ten(d1@),
            all_below_ten(d2@),
            0 <= i <= max_len,
            out@.len() == i,
            all_below_ten(out@),
            borrow <= 1,
            le_val(out@) == le_prefix_val(d1@, i as int) - le_prefix_val(d2@, i as int) + (
            borrow as int) * pow10(i as nat),
        decreases max_len - i,
    {
        let a = digit_get(&d1, i);
        let b = digit_get(&d2, i);
        let (dig, new_borrow): (u8, u8) = if a >= b + borrow {
            (a - b - borrow, 0)
        } else {
            (10 + a - b - borrow, 1)
        };
        proof {
            let gi = i as int;
            lemma_le_prefix_val_step(d1@, gi);
            lemma_le_prefix_val_step(d2@, gi);
            lemma_le_val_push(out@, dig);
            assert(dig == a - b - borrow + 10 * new_borrow);
            let p = pow10(i as nat);
            assert(pow10((i + 1) as nat) == 10 * p);
            assert((a - b - borrow + 10 * new_borrow) * p == a * p - b * p - borrow * p
                + new_borrow * (10 * p)) by (nonlinear_arith);
        }
        out.push(dig);
        borrow = new_borrow;
        i = i + 1;
    }
    proof {
        assert(d1@.take(n1 as int) =~= d1@);
        assert(d2@.take(n2 as int) =~= d2@);
        assert(le_prefix_val(d1@, max_len as int) == le_val(d1@));
        assert(le_prefix_val(d2@, max_len as int) == le_val(d2@));
        if borrow > 0 {
            // A final borrow would mean the result overshot by 10^max_len,
            // impossible since value1 >= value2 and the digits fit.
            lemma_le_val_bound(out@);
            assert(le_val(out@) == le_val(d1@) - le_val(d2@) + pow10(max_len as nat));
            lemma_pow10_pos(max_len as nat);
            assert(false);
        }
    }
    let mut out = out;
    trim_zeros(&mut out);
    digits_to_str(&out)
}

/// Magnitude order on unsigned decimal strings: shorter strings are smaller,
/// equal-length strings compare digit by digit from the most significant end.
pub fn textual_integer_is_smaller(value1: &str, value2: &str) -> (r: bool)
    requires
        canon_digits(value1@),
        canon_digits(value2@),
    ensures
        r == (digits_val(value1@) < digits_val(value2@)),
{
    let n1 = value1.unicode_len();
    let n2 = value2.unicode_len();
    if n1 < n2 {
        proof {
            lemma_canon_len_lt(value1@, value2@);
        }
        return true;
    }
    if n1 > n2 {
        proof {
            lemma_canon_len_lt(value2@, value1@);
        }
        return false;
    }
    let mut k: usize = 0;
    while k < n1
        invariant
            n1 == value1@.len(),
            n2 == value2@.len(),
            n1 == n2,
            canon_digits(value1@),
            canon_digits(value2@),
            0 <= k <= n1,
            value1@.take(k as int) =~= value2@.take(k as int),
        decreases n1 - k,
    {
        let c1 = value1.get_char(k);
        let c2 = value2.get_char(k);
        if (c1 as u32) < (c2 as u32) {
            proof {
                lemma_digits_val_lex(value1@, value2@, k as int);
            }
            return true;
        }
        if (c1 as u32) > (c2 as u32) {
            proof {
                lemma_digits_val_lex(value2@, value1@, k as int);
            }
            return false;
        }
        proof {
            assert(value1@.take(k + 1) =~= value2@.take(k + 1));
        }
        k = k + 1;
    }
    proof {
        assert(value1@ =~= value1@.take(n1 as int));
        assert(value2@ =~= value2@.take(n2 as int));
    }
    false
}

/// Signed order on decimal strings: negatives are below non-negatives,
/// magnitudes decide within one sign, reversed for two negatives.
pub fn textual_integer_is_less(value1: &str, value2: &str) -> (r: bool)
    requires
        canon_int(value1@),
        canon_int(value2@),
    ensures
        r == (str_int(value1@) < str_int(value2@)),
{
    let (neg1, mag1) = strip_minus(value1);
    let (neg2, mag2) = strip_minus(value2);
    if neg1 && neg2 {
        textual_integer_is_smaller(mag2, mag1)
    } else if neg1 {
        proof {
            lemma_digits_val_bound(mag2@);
        }
        true
    } else if neg2 {
        proof {
            lemma_digits_val_bound(mag1@);
        }
        false
    } else {
        textual_integer_is_smaller(mag1, mag2)
    }
}

/// Signed addition: splits off the signs, then adds or subtracts magnitudes.
pub fn textual_integer_add(value1: &str, value2: &str) -> (r: String)
    requires
        canon_int(value1@),
        canon_int(value2@),
    ensures
        canon_int(r@),
        str_int(r@) == str_int(value1@) + str_int(value2@),
{
    let (neg1, mag1) = strip_minus(value1);
    let (neg2, mag2) = strip_minus(value2);
    if neg1 && neg2 {
        let m = textual_integer_add_positive(mag1, mag2);
        proof {
            lemma_digits_val_bound(mag1@);
        }
        neg_of(m.as_str())
    } else if neg1 {
        textual_integer_sub_from(mag2, mag1)
    } else if neg2 {
        textual_integer_sub_from(mag1, mag2)
    } else {
        textual_integer_add_positive(mag1, mag2)
    }
}

/// Subtraction of unsigned magnitudes with a signed result.
fn textual_integer_sub_from(mag1: &str, mag2: &str) -> (r: String)
    requires
        canon_digits(mag1@),
        canon_digits(mag2@),
    ensures
        canon_int(r@),
        str_int(r@) == digits_val(mag1@) - digits_val(mag2@),
{
    if textual_integer_is_smaller(mag1, mag2) {
        let m = textual_integer_sub_positive(mag2, mag1);
        neg_of(m.as_str())
    } else {
        textual_integer_sub_positive(mag1, mag2)
    }
}

/// Signed subtraction: splits off the signs, then adds or subtracts magnitudes.
pub fn textual_integer_sub(value1: &str, value2: &str) -> (r: String)
    requires
        canon_int(value1@),
        canon_int(value2@),
    ensures
        canon_int(r@),
        str_int(r@) == str_int(value1@) - str_int(value2@),
{
    let (neg1, mag1) = strip_minus(value1);
    let (neg2, mag2) = strip_minus(value2);
    if neg1 && neg2 {
        textual_integer_sub_from(mag2, mag1)
    } else if neg1 {
        let m = textual_integer_add_positive(mag1, mag2);
        proof {
            lemma_digits_val_bound(mag2@);
        }
        neg_of(m.as_str())
    } else if neg2 {
        textual_integer_add_positive(mag1, mag2)
    } else {
        textual_integer_sub_from(mag1, mag2)
    }
}


/// True when the canonical unsigned string is exactly "0".
fn is_zero_digits(value: &str) -> (r: bool)
    requires
        canon_digits(value@),
    ensures
        r == (digits_val(value@) == 0),
{
    proof {
        reveal_strlit("0");
    }
    let n = value.unicode_len();
    let r = n == 1 && value.get_char(0) == '0';
    proof {
        if r {
            assert(value@ =~= seq!['0']);
            assert(value@.len() == 1);
            assert(value@.last() == '0');
            assert(value@.drop_last() =~= Seq::<char>::empty());
            assert(digits_val(Seq::<char>::empty()) == 0);
            assert(digits_val(value@) == digits_val(value@.drop_last()) * 10 + digit_val(
                value@.last(),
            ));
            assert(digit_val('0') == 0);
        } else {
            lemma_canon_lower(value@);
        }
    }
    r
}

/// Multiplies two unsigned decimal strings by schoolbook multiplication:
/// digit products are summed into wide cells, then carries are resolved.
pub fn textual_integer_mul_positive(value1: &str, value2: &str) -> (r: String)
    requires
        canon_digits(value1@),
        canon_digits(value2@),
        value1@.len() + value2@.len() <= 0x8000000,
    ensures
        canon_digits(r@),
        digits_val(r@) == digits_val(value1@) * digits_val(value2@),
{
    if is_zero_digits(value1) || is_zero_digits(value2) {
        proof {
            assert(digits_val(value1@) * digits_val(value2@) == 0) by (nonlinear_arith)
                requires
                    digits_val(value1@) == 0 || digits_val(value2@) == 0,
            ;
        }
        return zero_string();
    }
    let d1 = str_to_digits(value1);
    let d2 = str_to_digits(value2);
    let n1 = d1.len();
    let n2 = d2.len();
    let n = n1 + n2;
    let ghost v1 = digits_val(value1@);
    let ghost v2 = digits_val(value2@);
    let mut acc: Vec<u64> = Vec::new();
    while acc.len() < n
        invariant
            acc@.len() <= n,
            forall|k: int| 0 <= k < acc@.len() ==> #[trigger] acc@[k] == 0,
        decreases n - acc@.len(),
    {
        acc.push(0);
    }
    proof {
        lemma_le_val_wide_zero(acc@);
        assert(d1@.take(0) =~= Seq::<u8>::empty());
    }
    let mut i: usize = 0;
    while i < n1
        invariant
            n1 == d1@.len(),
            n2 == d2@.len(),
            n == n1 + n2,
            n <= 0x8000000,
            all_below_ten(d1@),
            all_below_ten(d2@),
            le_val(d1@) == v1,
            le_val(d2@) == v2,
            0 <= i <= n1,
            acc@.len() == n,
            forall|k: int| 0 <= k < n ==> #[trigger] acc@[k] <= 81 * i,
            le_val_wide(acc@) == le_val(d1@.take(i as int)) * v2,
        decreases n1 - i,
    {
        let mut j: usize = 0;
        proof {
            assert(d2@.take(0) =~= Seq::<u8>::empty());
            assert(le_val(d1@.take(i as int)) * v2 + (d1@[i as int] * pow10(i as nat)) * 0 == le_val(
                d1@.take(i as int),
            ) * v2) by (nonlinear_arith);
        }
        while j < n2
            invariant
                n1 == d1@.len(),
                n2 == d2@.len(),
                n == n1 + n2,
                n <= 0x8000000,
                all_below_ten(d1@),
                all_below_ten(d2@),
                le_val(d1@) == v1,
                le_val(d2@) == v2,
                0 <= i < n1,
                0 <= j <= n2,
                acc@.len() == n,
                forall|k: int|
                    0 <= k < n ==> #[trigger] acc@[k] <= 81 * i + (if k < i + j {
                        81int
                    } else {
                        0int
                    }),
                le_val_wide(acc@) == le_val(d1@.take(i as int)) * v2 + (d1@[i as int] * pow10(
                    i as nat,
                )) * le_val(d2@.take(j as int)),
            decreases n2 - j,
        {
            let k = i + j;
            proof {
                assert(d1@[i as int] * d2@[j as int] <= 81) by (nonlinear_arith)
                    requires
                        d1@[i as int] < 10,
                        d2@[j as int] < 10,
                ;
            }
            let prod: u64 = (d1[i] as u64) * (d2[j] as u64);
            let cell: u64 = acc[k];
            proof {
                lemma_le_val_wide_update(acc@, k as int, (cell + prod) as u64);
                lemma_pow10_adds(i as nat, j as nat);
                lemma_le_prefix_val_step(d2@, j as int);
                assert(d2@.take(j as int) =~= d2@.take(j as int));
                // The new cell adds d1[i]*d2[j]*10^(i+j), exactly the growth of
                // the partial product when the prefix of d2 grows by one digit.
                assert((d1@[i as int] * pow10(i as nat)) * (le_val(d2@.take(j as int)) + d2@[j as int]
                    * pow10(j as nat)) == (d1@[i as int] * pow10(i as nat)) * le_val(d2@.take(
                    j as int,
                )) + (d1@[i as int] * d2@[j as int]) * (pow10(i as nat) * pow10(j as nat)))
                    by (nonlinear_arith);
                assert(le_prefix_val(d2@, j as int) == le_val(d2@.take(j as int)));
                assert(le_prefix_val(d2@, j + 1 as int) == le_val(d2@.take(j + 1 as int)));
                assert(digit_at(d2@, j as int) == d2@[j as int]);
            }
            acc.set(k, cell + prod);
            j = j + 1;
        }
        proof {
            lemma_le_val_push(d1@.take(i as int), d1@[i as int]);
            assert(d1@.take(i + 1 as int) =~= d1@.take(i as int).push(d1@[i as int]));
            assert(d2@.take(n2 as int) =~= d2@);
            assert((le_val(d1@.take(i as int)) + d1@[i as int] * pow10(i as nat)) * v2 == le_val(
                d1@.take(i as int),
            ) * v2 + (d1@[i as int] * pow10(i as nat)) * v2) by (nonlinear_arith);
        }
        i = i + 1;
    }
    proof {
        assert(d1@.take(n1 as int) =~= d1@);
    }
    // Resolve the carries into single decimal digits.
    let mut out: Vec<u8> = Vec::new();
    let mut carry: u64 = 0;
    let mut p: usize = 0;
    let ghost total = le_val_wide(acc@);
    proof {
        assert(acc@.skip(0) =~= acc@);
        assert(pow10(0) == 1);
        assert(le_val_wide(acc@) * 1 == le_val_wide(acc@)) by (nonlinear_arith);
    }
    while p < n
        invariant
            acc@.len() == n,
            n <= 0x8000000,
            forall|k: int| 0 <= k < n ==> #[trigger] acc@[k] <= 81 * 0x8000000,
            0 <= p <= n,
            out@.len() == p,
            all_below_ten(out@),
            carry <= 81 * 0x8000000,
            le_val(out@) + (carry as int) * pow10(p as nat) + le_val_wide(acc@.skip(p as int))
                * pow10(p as nat) == total,
        decreases n - p,
    {
        let cur: u64 = acc[p] + carry;
        let dig: u8 = (cur % 10) as u8;
        let new_carry: u64 = cur / 10;
        proof {
            lemma_le_val_wide_suffix(acc@, p as int);
            lemma_le_val_push(out@, dig);
            assert(dig + 10 * new_carry == cur);
            let q = pow10(p as nat);
            assert(pow10((p + 1) as nat) == 10 * q);
            assert((acc@[p as int] + 10 * le_val_wide(acc@.skip(p + 1))) * q == acc@[p as int] * q
                + (10 * le_val_wide(acc@.skip(p + 1))) * q) by (nonlinear_arith);
            assert((dig + 10 * new_carry) * q == dig * q + new_carry * (10 * q))
                by (nonlinear_arith);
            assert((acc@[p as int] + carry) * q == acc@[p as int] * q + carry * q)
                by (nonlinear_arith);
            assert(le_val_wide(acc@.skip(p + 1)) * (10 * q) == (10 * le_val_wide(acc@.skip(p + 1)))
                * q) by (nonlinear_arith);
        }
        out.push(dig);
        carry = new_carry;
        p = p + 1;
    }
    proof {
        assert(acc@.skip(n as int) =~= Seq::<u64>::empty());
        // No carry can remain: the product fits in n digits.
        lemma_digits_val_bound(value1@);
        lemma_digits_val_bound(value2@);
        lemma_pow10_adds(n1 as nat, n2 as nat);
        assert(v1 * v2 < pow10(n1 as nat) * pow10(n2 as nat)) by (nonlinear_arith)
            requires
                0 <= v1 < pow10(n1 as nat),
                0 <= v2 < pow10(n2 as nat),
                pow10(n1 as nat) >= 1,
                pow10(n2 as nat) >= 1,
        ;
        lemma_pow10_pos(n1 as nat);
        lemma_pow10_pos(n2 as nat);
        lemma_le_val_bound(out@);
        if carry > 0 {
            assert((carry as int) * pow10(n as nat) >= pow10(n as nat)) by (nonlinear_arith)
                requires
                    carry >= 1,
                    pow10(n as nat) >= 1,
            ;
            lemma_pow10_pos(n as nat);
            assert(false);
        }
        assert(le_val(out@) == v1 * v2);
    }
    let mut out = out;
    trim_zeros(&mut out);
    digits_to_str(&out)
}

/// Signed multiplication: multiplies magnitudes, then restores the sign,
/// keeping zero unsigned.
pub fn textual_integer_mul(value1: &str, value2: &str) -> (r: String)
    requires
        canon_int(value1@),
        canon_int(value2@),
        value1@.len() + value2@.len() <= 0x8000000,
    ensures
        canon_int(r@),
        str_int(r@) == str_int(value1@) * str_int(value2@),
{
    let (neg1, mag1) = strip_minus(value1);
    let (neg2, mag2) = strip_minus(value2);
    let m = textual_integer_mul_positive(mag1, mag2);
    let ghost a = digits_val(mag1@);
    let ghost b = digits_val(mag2@);
    if (neg1 != neg2) && !is_zero_digits(m.as_str()) {
        proof {
            lemma_digits_val_bound(m@);
            assert(str_int(value1@) * str_int(value2@) == -(a * b)) by (nonlinear_arith)
                requires
                    (str_int(value1@) == -a && str_int(value2@) == b) || (str_int(value1@) == a
                        && str_int(value2@) == -b),
            ;
        }
        neg_of(m.as_str())
    } else {
        proof {
            if neg1 != neg2 {
                assert(a * b == 0);
                assert(str_int(value1@) * str_int(value2@) == 0) by (nonlinear_arith)
                    requires
                        (str_int(value1@) == -a && str_int(value2@) == b) || (str_int(value1@) == a
                            && str_int(value2@) == -b),
                        a * b == 0,
                ;
            } else if neg1 && neg2 {
                assert(str_int(value1@) * str_int(value2@) == a * b) by (nonlinear_arith)
                    requires
                        str_int(value1@) == -a,
                        str_int(value2@) == -b,
                ;
            }
        }
        m
    }
}

/// Raises an unsigned decimal string to a power by repeated squaring.
pub fn textual_integer_pow(base: &str, exponent: u32) -> (r: String)
    requires
        exponent == 0 || (canon_digits(base@) && base@.len() * exponent <= 0x1000000),
    ensures
        canon_digits(r@),
        digits_val(r@) == pow_int(digits_val(base@), exponent as nat),
{
    if exponent == 0 {
        return one_string();
    }
    if exponent == 1 {
        let r = base.to_owned();
        proof {
            assert(pow_int(digits_val(base@), 1) == digits_val(base@) * pow_int(
                digits_val(base@),
                0,
            ));
            assert(digits_val(base@) * 1 == digits_val(base@)) by (nonlinear_arith);
        }
        return r;
    }
    let ghost b = digits_val(base@);
    let ghost l = base@.len();
    let ghost e0 = exponent as nat;
    let mut res = one_string();
    let mut current_base = base.to_owned();
    let mut current_exponent = exponent;
    let ghost mut twok: nat = 1;
    let ghost mut m: nat = 0;
    proof {
        lemma_digits_val_bound(base@);
        assert(pow_int(b, 1) == b * pow_int(b, 0));
        assert(b * 1 == b) by (nonlinear_arith);
        assert(twok * (current_exponent as nat) == e0) by (nonlinear_arith)
            requires
                twok == 1,
                current_exponent as nat == e0,
        ;
        assert(l * 1 == l) by (nonlinear_arith);
    }
    while current_exponent > 0
        invariant
            canon_digits(res@),
            canon_digits(current_base@),
            0 <= b < pow10(l),
            l >= 1,
            e0 >= 1,
            l * e0 <= 0x1000000,
            m + twok * (current_exponent as nat) == e0,
            twok >= 1,
            digits_val(current_base@) == pow_int(b, twok),
            digits_val(res@) == pow_int(b, m),
        decreases current_exponent,
    {
        let ghost ce = current_exponent as nat;
        let ghost m0 = m;
        let ghost t0 = twok;
        proof {
            // Bound the lengths of the working strings through their values,
            // so the multiplications below stay within their size limit.
            lemma_pow_int_bound(b, l, m0);
            lemma_pow_int_bound(b, l, t0);
            lemma_pow10_pos(l * m0);
            lemma_pow10_pos(l * t0);
            lemma_pow10_adds(l * m0, 1);
            lemma_pow10_adds(l * t0, 1);
            lemma_canon_len_le(res@, l * m0 + 1);
            lemma_canon_len_le(current_base@, l * t0 + 1);
            assert(t0 * ce >= t0 * 1) by (nonlinear_arith)
                requires
                    ce >= 1,
                    t0 >= 0,
            ;
            assert(t0 * 1 == t0) by (nonlinear_arith);
            assert(m0 + t0 <= e0);
            assert(l * m0 + l * t0 == l * (m0 + t0)) by (nonlinear_arith);
            assert(l * (m0 + t0) <= l * e0) by (nonlinear_arith)
                requires
                    m0 + t0 <= e0,
                    l >= 0,
            ;
        }
        if current_exponent % 2 == 1 {
            let new_res = textual_integer_mul_positive(res.as_str(), current_base.as_str());
            proof {
                lemma_pow_int_adds(b, m0, t0);
                m = m0 + t0;
            }
            res = new_res;
        }
        let new_base = textual_integer_mul_positive(current_base.as_str(), current_base.as_str());
        proof {
            lemma_pow_int_adds(b, t0, t0);
            twok = t0 * 2;
        }
        current_base = new_base;
        current_exponent = current_exponent / 2;
        proof {
            let nce = current_exponent as nat;
            if ce % 2 == 1 {
                assert(ce == 2 * nce + 1);
                assert(t0 * ce == 2 * t0 * nce + t0) by (nonlinear_arith)
                    requires
                        ce == 2 * nce + 1,
                ;
                assert(twok * nce == 2 * t0 * nce) by (nonlinear_arith)
                    requires
                        twok == t0 * 2,
                ;
                assert(m + twok * nce == m0 + t0 + 2 * t0 * nce);
            } else {
                assert(ce == 2 * nce);
                assert(t0 * ce == 2 * t0 * nce) by (nonlinear_arith)
                    requires
                        ce == 2 * nce,
                ;
                assert(twok * nce == 2 * t0 * nce) by (nonlinear_arith)
                    requires
                        twok == t0 * 2,
                ;
            }
            assert(m + twok * nce == e0);
        }
    }
    proof {
        assert(twok * 0 == 0) by (nonlinear_arith);
    }
    res
}


/// The reputation level of a score string: negative scores are level 1,
/// and a positive score of `d` digits is level `(d + 1) / 2 - 1` (the
/// number of whole hundred-factors in its magnitude); "0" is level 0.
pub open spec fn level_spec(s: Seq<char>) -> int {
    if s.len() > 0 && s[0] == '-' {
        1
    } else {
        (s.len() + 1) / 2 - 1
    }
}

/// Maps a score to its reputation level.
pub fn level(score: &str) -> (r: u8)
    requires
        canon_int(score@),
        score@.len() <= 512,
    ensures
        r == level_spec(score@),
{
    let n = score.unicode_len();
    if n > 0 && score.get_char(0) == '-' {
        return 1;
    }
    ((n + 1) / 2 - 1) as u8
}

/// Powers of 100 are positive.
pub proof fn lemma_pow100_pos(n: nat)
    ensures
        pow_int(100, n) >= 1,
    decreases n,
{
    if n > 0 {
        lemma_pow100_pos((n - 1) as nat);
        assert(100 * pow_int(100, (n - 1) as nat) >= 100 * 1) by (nonlinear_arith)
            requires
                pow_int(100, (n - 1) as nat) >= 1,
        ;
    }
}

/// Powers of 100 do not decrease with the exponent, and grow at least
/// a hundredfold with each step.
pub proof fn lemma_pow100_increases(a: nat, b: nat)
    requires
        a <= b,
    ensures
        pow_int(100, a) <= pow_int(100, b),
        a < b ==> 100 * pow_int(100, a) <= pow_int(100, b),
    decreases b,
{
    if a < b {
        lemma_pow100_increases(a, (b - 1) as nat);
        lemma_pow100_pos((b - 1) as nat);
        assert(pow_int(100, b) == 100 * pow_int(100, (b - 1) as nat));
        assert(100 * pow_int(100, a) <= 100 * pow_int(100, (b - 1) as nat)) by (nonlinear_arith)
            requires
                pow_int(100, a) <= pow_int(100, (b - 1) as nat),
        ;
    }
}

/// A power of 100 is the matching even power of 10.
pub proof fn lemma_pow100_is_pow10(n: nat)
    ensures
        pow_int(100, n) == pow10(2 * n),
    decreases n,
{
    if n > 0 {
        lemma_pow100_is_pow10((n - 1) as nat);
        assert(pow10(2 * n) == 10 * pow10((2 * n - 1) as nat));
        assert(pow10((2 * n - 1) as nat) == 10 * pow10((2 * n - 2) as nat));
        assert(100 * pow10((2 * (n - 1)) as nat) == 10 * (10 * pow10((2 * n - 2) as nat)))
            by (nonlinear_arith);
    }
}

/// The canonical string "100".
fn hundred_string() -> (r: String)
    ensures
        canon_digits(r@),
        r@ =~= seq!['1', '0', '0'],
{
    proof {
        reveal_strlit("100");
    }
    let r = String::from_str("100");
    proof {
        assert(r@ =~= seq!['1', '0', '0']);
        assert(forall|i: int| 0 <= i < r@.len() ==> is_digit(#[trigger] r@[i])) by {
            assert(r@[0] == '1');
            assert(r@[1] == '0');
            assert(r@[2] == '0');
        }
    }
    r
}

/// The canonical string "10".
fn ten_string() -> (r: String)
    ensures
        canon_digits(r@),
        digits_val(r@) == 10,
        r@.len() == 2,
{
    proof {
        reveal_strlit("10");
    }
    let r = String::from_str("10");
    proof {
        assert(r@ =~= seq!['1', '0']);
        assert(forall|i: int| 0 <= i < r@.len() ==> is_digit(#[trigger] r@[i])) by {
            assert(r@[0] == '1');
            assert(r@[1] == '0');
        }
        assert(r@.drop_last() =~= seq!['1']);
        assert(r@.drop_last().drop_last() =~= Seq::<char>::empty());
        assert(digits_val(r@.drop_last()) == digits_val(r@.drop_last().drop_last()) * 10
            + digit_val(r@.drop_last().last()));
        assert(digits_val(r@) == digits_val(r@.drop_last()) * 10 + digit_val(r@.last()));
    }
    r
}

/// The floor score of a reputation level: 100 to that power.
pub fn minimal_score_of_level(level: u8) -> (r: TextxualInteger)
    ensures
        canon_digits(r@),
        digits_val(r@) == pow_int(100, level as nat),
{
    let base = hundred_string();
    let r = textual_integer_pow(base.as_str(), level as u32);
    proof {
        let b = base@;
        assert(b.drop_last() =~= seq!['1', '0']);
        assert(b.drop_last().drop_last() =~= seq!['1']);
        assert(b.drop_last().drop_last().drop_last() =~= Seq::<char>::empty());
        assert(digits_val(Seq::<char>::empty()) == 0);
        assert(b.drop_last().drop_last().last() == '1');
        assert(digits_val(b.drop_last().drop_last()) == digits_val(
            b.drop_last().drop_last().drop_last(),
        ) * 10 + digit_val(b.drop_last().drop_last().last()));
        assert(digits_val(b.drop_last()) == digits_val(b.drop_last().drop_last()) * 10 + digit_val(
            b.drop_last().last(),
        ));
        assert(digits_val(b) == digits_val(b.drop_last()) * 10 + digit_val(b.last()));
        assert(digits_val(b) == 100);
    }
    r
}

/// The signed point value of one vote, from the target's and the voter's
/// levels: a voter above the target's tier is capped at ten times the
/// target's tier floor; anyone else contributes their own tier floor.
pub fn calculate_vote_score(target_level: u8, voter_level: u8) -> (r: TextxualInteger)
    ensures
        canon_digits(r@),
        voter_level > target_level ==> digits_val(r@) == 10 * pow_int(100, target_level as nat),
        voter_level <= target_level ==> digits_val(r@) == pow_int(100, voter_level as nat),
        digits_val(r@) == vote_weight_spec(target_level as int, voter_level as int),
        digits_val(r@) > 0,
{
    let target_minimal_score = minimal_score_of_level(target_level);
    let voter_minimal_score = minimal_score_of_level(voter_level);
    let ten = ten_string();
    proof {
        let tl = target_level as nat;
        lemma_pow100_is_pow10(tl);
        lemma_pow10_pos(2 * tl);
        assert(pow10(2 * tl + 1) == 10 * pow10(2 * tl));
        lemma_canon_len_le(target_minimal_score@, 2 * tl + 1);
    }
    let capped = textual_integer_mul_positive(target_minimal_score.as_str(), ten.as_str());
    proof {
        let tl = target_level as nat;
        let vl = voter_level as nat;
        lemma_pow100_pos(tl);
        lemma_pow100_pos(vl);
        assert(digits_val(capped@) == 10 * pow_int(100, tl)) by (nonlinear_arith)
            requires
                digits_val(capped@) == pow_int(100, tl) * 10,
        ;
        if vl > tl {
            lemma_pow100_increases(tl, vl);
            assert(100 * pow_int(100, tl) <= pow_int(100, vl));
            assert(10 * pow_int(100, tl) < 100 * pow_int(100, tl)) by (nonlinear_arith)
                requires
                    pow_int(100, tl) >= 1,
            ;
        } else {
            lemma_pow100_increases(vl, tl);
            assert(pow_int(100, vl) <= pow_int(100, tl));
            assert(pow_int(100, tl) < 10 * pow_int(100, tl)) by (nonlinear_arith)
                requires
                    pow_int(100, tl) >= 1,
            ;
        }
    }
    if textual_integer_is_smaller(capped.as_str(), voter_minimal_score.as_str()) {
        capped
    } else {
        voter_minimal_score
    }
}

/// The values of the small powers of 100 that fit native words.
pub proof fn lemma_pow100_values()
    ensures
        pow_int(100, 8) == 10000000000000000,
        pow_int(100, 9) == 1000000000000000000,
{
    assert(pow_int(100, 0) == 1);
    assert(pow_int(100, 1) == 100 * pow_int(100, 0));
    assert(pow_int(100, 2) == 100 * pow_int(100, 1));
    assert(pow_int(100, 3) == 100 * pow_int(100, 2));
    assert(pow_int(100, 4) == 100 * pow_int(100, 3));
    assert(pow_int(100, 5) == 100 * pow_int(100, 4));
    assert(pow_int(100, 6) == 100 * pow_int(100, 5));
    assert(pow_int(100, 7) == 100 * pow_int(100, 6));
    assert(pow_int(100, 8) == 100 * pow_int(100, 7));
    assert(pow_int(100, 9) == 100 * pow_int(100, 8));
}

/// Computes 100 to the power `l` in native arithmetic.
fn pow100_u64(l: u8) -> (r: u64)
    requires
        l <= 9,
    ensures
        r == pow_int(100, l as nat),
{
    let mut acc: u64 = 1;
    let mut k: u8 = 0;
    while k < l
        invariant
            k <= l <= 9,
            acc == pow_int(100, k as nat),
        decreases l - k,
    {
        proof {
            lemma_pow100_values();
            lemma_pow100_increases(k as nat, 8);
            assert(acc <= pow_int(100, 8));
        }
        acc = acc * 100;
        k = k + 1;
    }
    acc
}

/// The fixed-width variant of the vote-weight rule, on native integers.
pub fn calculate_vote_impact(poster_level: u8, voter_level: u8) -> (r: i64)
    requires
        poster_level <= 8,
        voter_level <= 9,
    ensures
        voter_level > poster_level ==> r == 10 * pow_int(100, poster_level as nat),
        voter_level <= poster_level ==> r == pow_int(100, voter_level as nat),
        r > 0,
{
    let poster_level_score = pow100_u64(poster_level);
    let voter_level_score = pow100_u64(voter_level);
    proof {
        let pl = poster_level as nat;
        let vl = voter_level as nat;
        lemma_pow100_pos(pl);
        lemma_pow100_pos(vl);
        lemma_pow100_values();
        lemma_pow100_increases(pl, 8);
        lemma_pow100_increases(vl, 9);
        if vl > pl {
            lemma_pow100_increases(pl, vl);
            assert(100 * pow_int(100, pl) <= pow_int(100, vl));
            assert(10 * pow_int(100, pl) < 100 * pow_int(100, pl)) by (nonlinear_arith)
                requires
                    pow_int(100, pl) >= 1,
            ;
        } else {
            lemma_pow100_increases(vl, pl);
            assert(pow_int(100, pl) < 10 * pow_int(100, pl)) by (nonlinear_arith)
                requires
                    pow_int(100, pl) >= 1,
            ;
        }
    }
    let capped: u64 = poster_level_score * 10;
    if voter_level_score > capped {
        capped as i64
    } else {
        voter_level_score as i64
    }
}


/// Law: the level of a non-negative score never decreases as the score grows.
pub proof fn lemma_level_monotonic(a: Seq<char>, b: Seq<char>)
    requires
        canon_digits(a),
        canon_digits(b),
        digits_val(a) <= digits_val(b),
    ensures
        level_spec(a) <= level_spec(b),
{
    if a.len() > b.len() {
        lemma_canon_len_lt(b, a);
        assert(false);
    }
    assert(is_digit(a[0]));
    assert(is_digit(b[0]));
    assert(a[0] != '-');
    assert(b[0] != '-');
}

/// Law: the floor score of level `n` (that is, 100^n) sits exactly at level `n`.
pub proof fn lemma_level_of_minimal_score(s: Seq<char>, n: u8)
    requires
        canon_digits(s),
        digits_val(s) == pow_int(100, n as nat),
    ensures
        level_spec(s) == n,
{
    let m = n as nat;
    lemma_pow100_is_pow10(m);
    lemma_pow100_pos(m);
    lemma_digits_val_bound(s);
    if s.len() == 1 && s[0] == '0' {
        assert(s.drop_last() =~= Seq::<char>::empty());
        assert(digits_val(s) == digits_val(s.drop_last()) * 10 + digit_val(s.last()));
        assert(false);
    }
    lemma_canon_lower(s);
    assert(is_digit(s[0]));
    assert(s[0] != '-');
    // The string has exactly 2n + 1 digits.
    if s.len() <= 2 * m {
        lemma_pow10_increases(s.len(), 2 * m);
        assert(false);
    }
    if s.len() >= 2 * m + 2 {
        lemma_pow10_increases(2 * m + 1, (s.len() - 1) as nat);
        lemma_pow10_pos(2 * m);
        assert(pow10(2 * m + 1) == 10 * pow10(2 * m));
        assert(false);
    }
    assert(s.len() == 2 * m + 1);
}


/// One aggregate row: the running score and the vote counts of one target
/// within one field.
#[derive(Debug)]
pub struct Score {
    pub address: crate::Address,
    pub field_address: crate::Address,
    pub score: crate::textual_integer::TextualInteger,
    pub upvote: u64,
    pub downvote: u64,
}

impl Clone for Score {
    /// Clones preserve every field exactly.
    fn clone(&self) -> (r: Self)
        ensures
            r == *self,
    {
        Score {
            address: self.address.clone(),
            field_address: self.field_address.clone(),
            score: self.score.clone(),
            upvote: self.upvote,
            downvote: self.downvote,
        }
    }
}


/// The reputation level as a function of the score's integer value: negative
/// scores are level 1, and a non-negative score's level counts how often it
/// can be divided by 100 before dropping below 100.
pub open spec fn level_of_int(v: int) -> int
    decreases v,
{
    if v < 0 {
        1
    } else if v < 100 {
        0
    } else {
        1 + level_of_int(v / 100)
    }
}

/// The signed point value of one vote as a function of the two levels.
pub open spec fn vote_weight_spec(target_level: int, voter_level: int) -> int {
    if voter_level > target_level {
        10 * pow_int(100, target_level as nat)
    } else {
        pow_int(100, voter_level as nat)
    }
}

/// A value with `n` decimal digits sits at level `(n + 1) / 2 - 1`.
proof fn lemma_level_of_int_range(v: int, n: nat)
    requires
        n >= 1,
        pow10((n - 1) as nat) <= v < pow10(n),
    ensures
        level_of_int(v) == (n + 1) / 2 - 1,
    decreases n,
{
    assert(pow10(1) == 10 * pow10(0));
    assert(pow10(2) == 10 * pow10(1));
    if n <= 2 {
        lemma_pow10_increases(n, 2);
        assert(v < 100);
        assert(v >= pow10((n - 1) as nat));
        lemma_pow10_pos((n - 1) as nat);
        assert(level_of_int(v) == 0);
    } else {
        lemma_pow10_increases(2, (n - 1) as nat);
        assert(v >= 100);
        assert(pow10((n - 1) as nat) == 10 * pow10((n - 2) as nat));
        assert(pow10((n - 2) as nat) == 10 * pow10((n - 3) as nat));
        assert(v / 100 >= pow10((n - 3) as nat)) by (nonlinear_arith)
            requires
                v >= 100 * pow10((n - 3) as nat),
        ;
        assert(pow10(n) == 10 * pow10((n - 1) as nat));
        assert(v / 100 < pow10((n - 2) as nat)) by (nonlinear_arith)
            requires
                v < 100 * pow10((n - 2) as nat),
        ;
        lemma_level_of_int_range(v / 100, (n - 2) as nat);
    }
}

/// On canonical strings, the string-level and the value-level readings of
/// the level function agree.
pub proof fn lemma_level_int(s: Seq<char>)
    requires
        canon_int(s),
    ensures
        level_of_int(str_int(s)) == level_spec(s),
{
    if !canon_digits(s) {
        assert(s[0] == '-');
        assert(str_int(s) == -digits_val(s.skip(1)));
        assert(str_int(s) < 0);
    } else {
        assert(is_digit(s[0]));
        assert(s[0] != '-');
        lemma_digits_val_bound(s);
        if digits_val(s) == 0 {
            lemma_canon_zero(s);
            assert(s.len() == 1);
        } else {
            if s.len() == 1 && s[0] == '0' {
                assert(s.drop_last() =~= Seq::<char>::empty());
                assert(digits_val(s) == digits_val(s.drop_last()) * 10 + digit_val(s.last()));
                assert(false);
            }
            lemma_canon_lower(s);
            lemma_level_of_int_range(digits_val(s), s.len());
        }
    }
}

} // verus!\n