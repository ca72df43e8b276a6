//! The mathematical model of decimal digit strings: what a digit string is
//! worth as an integer, when it is in canonical form, and the arithmetic
//! facts the executable routines are proved against.
use vstd::prelude::*;
use vstd::string::*;

verus! {

/// `c` is a decimal digit character.
pub open spec fn is_digit(c: char) -> bool {
    '0' <= c && c <= '9'
}

/// Numeric value of a digit character.
pub open spec fn digit_val(c: char) -> int {
    c as int - '0' as int
}

/// Every character of `s` is a decimal digit.
pub open spec fn all_digits(s: Seq<char>) -> bool {
    forall|i: int| 0 <= i < s.len() ==> is_digit(#[trigger] s[i])
}

/// `s` is a canonical unsigned decimal string: non-empty, digits only,
/// and no leading zero unless `s` is exactly "0".
pub open spec fn canon_digits(s: Seq<char>) -> bool {
    s.len() >= 1 && all_digits(s) && (s[0] == '0' ==> s.len() == 1)
}

/// `s` is a canonical signed decimal string: either a canonical unsigned
/// string, or a '-' followed by a canonical unsigned string of positive
/// value (so "-0" is not canonical).
pub open spec fn canon_int(s: Seq<char>) -> bool {
    canon_digits(s) || (s.len() >= 2 && s[0] == '-' && canon_digits(s.skip(1)) && digits_val(
        s.skip(1),
    ) > 0)
}

/// Value of an unsigned digit string, most significant digit first.
pub open spec fn digits_val(s: Seq<char>) -> int
    decreases s.len(),
{
    if s.len() == 0 {
        0
    } else {
        digits_val(s.drop_last()) * 10 + digit_val(s.last())
    }
}

/// Value of a signed decimal string: a leading '-' negates the magnitude.
pub open spec fn str_int(s: Seq<char>) -> int {
    if s.len() > 0 && s[0] == '-' {
        -digits_val(s.skip(1))
    } else {
        digits_val(s)
    }
}

/// Value of a little-endian vector of digit values (entry 0 is the ones place).
pub open spec fn le_val(d: Seq<u8>) -> int
    decreases d.len(),
{
    if d.len() == 0 {
        0
    } else {
        d[0] + 10 * le_val(d.skip(1))
    }
}

/// Value of a little-endian vector of wide accumulator cells.
pub open spec fn le_val_wide(d: Seq<u64>) -> int
    decreases d.len(),
{
    if d.len() == 0 {
        0
    } else {
        d[0] + 10 * le_val_wide(d.skip(1))
    }
}

/// The first `n` little-endian digits of `d`, reading 0 past the end.
pub open spec fn le_prefix_val(d: Seq<u8>, n: int) -> int {
    if n <= d.len() {
        le_val(d.take(n))
    } else {
        le_val(d)
    }
}

/// The digit of `d` at position `i`, reading 0 past the end.
pub open spec fn digit_at(d: Seq<u8>, i: int) -> u8 {
    if 0 <= i < d.len() {
        d[i]
    } else {
        0
    }
}

/// The character for a single digit value.
pub open spec fn digit_char(d: int) -> char {
    if d == 0 {
        '0'
    } else if d == 1 {
        '1'
    } else if d == 2 {
        '2'
    } else if d == 3 {
        '3'
    } else if d == 4 {
        '4'
    } else if d == 5 {
        '5'
    } else if d == 6 {
        '6'
    } else if d == 7 {
        '7'
    } else if d == 8 {
        '8'
    } else {
        '9'
    }
}

/// All entries of a little-endian digit vector are below 10.
pub open spec fn all_below_ten(d: Seq<u8>) -> bool {
    forall|i: int| 0 <= i < d.len() ==> #[trigger] d[i] < 10
}

/// Ten to the power `n`.
pub open spec fn pow10(n: nat) -> int
    decreases n,
{
    if n == 0 {
        1
    } else {
        10 * pow10((n - 1) as nat)
    }
}

/// An integer base raised to a natural exponent.
pub open spec fn pow_int(b: int, e: nat) -> int
    decreases e,
{
    if e == 0 {
        1
    } else {
        b * pow_int(b, (e - 1) as nat)
    }
}

/// Powers of ten are positive.
pub proof fn lemma_pow10_pos(n: nat)
    ensures
        pow10(n) >= 1,
    decreases n,
{
    if n > 0 {
        lemma_pow10_pos((n - 1) as nat);
    }
}

/// Powers of ten do not decrease with the exponent.
pub proof fn lemma_pow10_increases(a: nat, b: nat)
    requires
        a <= b,
    ensures
        pow10(a) <= pow10(b),
    decreases b,
{
    if a < b {
        lemma_pow10_increases(a, (b - 1) as nat);
        lemma_pow10_pos((b - 1) as nat);
    }
}

/// Powers of ten multiply when exponents add.
pub proof fn lemma_pow10_adds(a: nat, b: nat)
    ensures
        pow10(a + b) == pow10(a) * pow10(b),
    decreases a,
{
    if a == 0 {
    } else {
        lemma_pow10_adds((a - 1) as nat, b);
        assert(pow10(a + b) == 10 * pow10((a + b - 1) as nat));
        assert(10 * (pow10((a - 1) as nat) * pow10(b)) == (10 * pow10((a - 1) as nat)) * pow10(b))
            by (nonlinear_arith);
    }
}

proof fn lemma_le_val_skip_push(d: Seq<u8>, x: u8, k: int)
    requires
        0 <= k <= d.len(),
    ensures
        le_val(d.push(x).skip(k)) == le_val(d.skip(k)) + x * pow10((d.len() - k) as nat),
    decreases d.len() - k,
{
    if k == d.len() {
        assert(d.push(x).skip(k) =~= seq![x]);
        assert(d.skip(k) =~= Seq::<u8>::empty());
        assert(le_val(seq![x].skip(1)) == 0) by {
            assert(seq![x].skip(1) =~= Seq::<u8>::empty());
        }
        assert(le_val(seq![x]) == x);
        assert(pow10((d.len() - k) as nat) == 1);
        assert(x * 1 == x) by (nonlinear_arith);
    } else {
        lemma_le_val_skip_push(d, x, k + 1);
        let s = d.push(x).skip(k);
        assert(s.len() > 0);
        assert(s[0] == d[k]);
        assert(s.skip(1) =~= d.push(x).skip(k + 1));
        assert(d.skip(k).skip(1) =~= d.skip(k + 1));
        assert(le_val(s) == d[k] + 10 * le_val(d.push(x).skip(k + 1)));
        assert(le_val(d.skip(k)) == d[k] + 10 * le_val(d.skip(k + 1)));
        assert(pow10((d.len() - k) as nat) == 10 * pow10((d.len() - k - 1) as nat));
        assert(10 * (le_val(d.skip(k + 1)) + x * pow10((d.len() - k - 1) as nat)) == 10 * le_val(
            d.skip(k + 1),
        ) + x * (10 * pow10((d.len() - k - 1) as nat))) by (nonlinear_arith);
    }
}

/// Appending a most-significant digit adds its value times the right power of ten.
pub proof fn lemma_le_val_push(d: Seq<u8>, x: u8)
    ensures
        le_val(d.push(x)) == le_val(d) + x * pow10(d.len()),
{
    lemma_le_val_skip_push(d, x, 0);
    assert(d.push(x).skip(0) =~= d.push(x));
    assert(d.skip(0) =~= d);
}

/// Extending a prefix by one digit adds that digit times the right power of ten.
pub proof fn lemma_le_prefix_val_step(d: Seq<u8>, n: int)
    requires
        n >= 0,
    ensures
        le_prefix_val(d, n + 1) == le_prefix_val(d, n) + digit_at(d, n) * pow10(n as nat),
{
    if n < d.len() {
        assert(d.take(n + 1) =~= d.take(n).push(d[n]));
        lemma_le_val_push(d.take(n), d[n]);
    } else {
        if n == d.len() {
            assert(d.take(n) =~= d);
        }
        assert(digit_at(d, n) == 0);
    }
}

/// A digit vector's value is non-negative.
pub proof fn lemma_le_val_nonneg(d: Seq<u8>)
    ensures
        le_val(d) >= 0,
    decreases d.len(),
{
    if d.len() > 0 {
        lemma_le_val_nonneg(d.skip(1));
    }
}

/// A vector of `n` digits is worth less than 10^n.
pub proof fn lemma_le_val_bound(d: Seq<u8>)
    requires
        all_below_ten(d),
    ensures
        0 <= le_val(d) < pow10(d.len()),
    decreases d.len(),
{
    if d.len() == 0 {
        assert(pow10(0) == 1);
    } else {
        let t = d.skip(1);
        assert(all_below_ten(t)) by {
            assert(forall|i: int| 0 <= i < t.len() ==> t[i] == d[i + 1]);
        }
        lemma_le_val_bound(t);
        assert(pow10(d.len()) == 10 * pow10(t.len()));
        assert(d[0] + 10 * le_val(t) < 10 * (le_val(t) + 1));
        assert(10 * (le_val(t) + 1) <= 10 * pow10(t.len())) by (nonlinear_arith)
            requires
                le_val(t) + 1 <= pow10(t.len()),
        ;
    }
}

/// The value of a digit string is the value of its little-endian reversal.
pub proof fn lemma_rev_digits_val(s: Seq<char>, d: Seq<u8>)
    requires
        d.len() == s.len(),
        forall|j: int| 0 <= j < d.len() ==> #[trigger] d[j] == digit_val(s[s.len() - 1 - j]),
    ensures
        le_val(d) == digits_val(s),
    decreases s.len(),
{
    if s.len() > 0 {
        let s0 = s.drop_last();
        let d0 = d.skip(1);
        assert(forall|j: int|
            0 <= j < d0.len() ==> #[trigger] d0[j] == digit_val(s0[s0.len() - 1 - j])) by {
            assert(forall|j: int| 0 <= j < d0.len() ==> d0[j] == d[j + 1]);
        }
        lemma_rev_digits_val(s0, d0);
        assert(d[0] == digit_val(s.last()));
        assert(le_val(d) == digit_val(s.last()) + 10 * digits_val(s.drop_last()));
    }
}

/// The value of an unsigned digit string splits at any position `k`:
/// high part times a power of ten plus low part.
pub proof fn lemma_digits_val_split(s: Seq<char>, k: int)
    requires
        0 <= k <= s.len(),
    ensures
        digits_val(s) == digits_val(s.take(k)) * pow10((s.len() - k) as nat) + digits_val(
            s.skip(k),
        ),
    decreases s.len() - k,
{
    if k == s.len() {
        assert(s.take(k) =~= s);
        assert(s.skip(k) =~= Seq::<char>::empty());
        assert(pow10(0) == 1);
    } else {
        lemma_digits_val_split(s, k + 1);
        assert(s.take(k + 1) =~= s.take(k).push(s[k]));
        assert(s.take(k + 1).drop_last() =~= s.take(k));
        assert(digits_val(s.take(k + 1)) == digits_val(s.take(k)) * 10 + digit_val(s[k]));
        let low1 = s.skip(k + 1);
        let low = s.skip(k);
        assert(low.drop_last() =~= s.take(s.len() - 1).skip(k));
        // digits_val(low) relates to digits_val(low1): low == seq![s[k]] + low1.
        lemma_digits_val_head(low);
        assert(low[0] == s[k]);
        assert(low.skip(1) =~= low1);
        let m = (s.len() - k - 1) as nat;
        assert(pow10(m + 1) == 10 * pow10(m));
        assert((digits_val(s.take(k)) * 10 + digit_val(s[k])) * pow10(m) == digits_val(s.take(k))
            * (10 * pow10(m)) + digit_val(s[k]) * pow10(m)) by (nonlinear_arith);
    }
}

/// Peeling the first (most significant) digit off an unsigned digit string.
pub proof fn lemma_digits_val_head(s: Seq<char>)
    requires
        s.len() >= 1,
    ensures
        digits_val(s) == digit_val(s[0]) * pow10((s.len() - 1) as nat) + digits_val(s.skip(1)),
    decreases s.len(),
{
    if s.len() == 1 {
        assert(s.drop_last() =~= Seq::<char>::empty());
        assert(s.skip(1) =~= Seq::<char>::empty());
        assert(pow10(0) == 1);
    } else {
        let s0 = s.drop_last();
        lemma_digits_val_head(s0);
        assert(s0.skip(1) =~= s.skip(1).drop_last());
        assert(s0[0] == s[0]);
        let m = (s.len() - 2) as nat;
        assert(digits_val(s) == digits_val(s0) * 10 + digit_val(s.last()));
        assert(digits_val(s.skip(1)) == digits_val(s.skip(1).drop_last()) * 10 + digit_val(
            s.skip(1).last(),
        ));
        assert(s.skip(1).last() == s.last());
        assert((digit_val(s[0]) * pow10(m) + digits_val(s0.skip(1))) * 10 == digit_val(s[0]) * (10
            * pow10(m)) + digits_val(s0.skip(1)) * 10) by (nonlinear_arith);
        assert(pow10(m + 1) == 10 * pow10(m));
    }
}

/// Bounds for an unsigned digit string: any `n`-digit string is worth less
/// than 10^n, and non-negative.
pub proof fn lemma_digits_val_bound(s: Seq<char>)
    requires
        all_digits(s),
    ensures
        0 <= digits_val(s) < pow10(s.len()),
    decreases s.len(),
{
    if s.len() == 0 {
        assert(pow10(0) == 1);
    } else {
        let s0 = s.drop_last();
        assert(all_digits(s0)) by {
            assert(forall|i: int| 0 <= i < s0.len() ==> s0[i] == s[i]);
        }
        lemma_digits_val_bound(s0);
        assert(digit_val(s.last()) <= 9);
        assert(digits_val(s0) * 10 + 9 < pow10(s0.len()) * 10) by (nonlinear_arith)
            requires
                digits_val(s0) < pow10(s0.len()),
        ;
        assert(pow10(s.len()) == 10 * pow10(s0.len()));
    }
}

/// A canonical unsigned string other than "0" is worth at least 10^(n-1),
/// where `n` is its length; in particular it is positive.
pub proof fn lemma_canon_lower(s: Seq<char>)
    requires
        canon_digits(s),
        !(s.len() == 1 && s[0] == '0'),
    ensures
        digits_val(s) >= pow10((s.len() - 1) as nat),
        digits_val(s) > 0,
{
    lemma_digits_val_head(s);
    lemma_digits_val_bound(s.skip(1));
    assert(all_digits(s.skip(1))) by {
        assert(forall|i: int| 0 <= i < s.skip(1).len() ==> s.skip(1)[i] == s[i + 1]);
    }
    assert(digit_val(s[0]) >= 1);
    assert(digit_val(s[0]) * pow10((s.len() - 1) as nat) >= pow10((s.len() - 1) as nat)) by (nonlinear_arith)
        requires
            digit_val(s[0]) >= 1,
            pow10((s.len() - 1) as nat) > 0,
    ;
    lemma_pow10_pos((s.len() - 1) as nat);
}

/// A canonical unsigned string worth 0 is exactly "0".
pub proof fn lemma_canon_zero(s: Seq<char>)
    requires
        canon_digits(s),
        digits_val(s) == 0,
    ensures
        s =~= seq!['0'],
{
    if !(s.len() == 1 && s[0] == '0') {
        lemma_canon_lower(s);
    }
}

/// Of two canonical unsigned strings, the longer is strictly larger.
pub proof fn lemma_canon_len_lt(a: Seq<char>, b: Seq<char>)
    requires
        canon_digits(a),
        canon_digits(b),
        a.len() < b.len(),
    ensures
        digits_val(a) < digits_val(b),
{
    lemma_digits_val_bound(a);
    assert(!(b.len() == 1 && b[0] == '0'));
    lemma_canon_lower(b);
    lemma_pow10_increases(a.len(), (b.len() - 1) as nat);
}

/// Equal-length digit strings that agree up to position `k` and differ there
/// compare numerically as they do at position `k`.
pub proof fn lemma_digits_val_lex(a: Seq<char>, b: Seq<char>, k: int)
    requires
        all_digits(a),
        all_digits(b),
        a.len() == b.len(),
        0 <= k < a.len(),
        a.take(k) =~= b.take(k),
        digit_val(a[k]) < digit_val(b[k]),
    ensures
        digits_val(a) < digits_val(b),
{
    lemma_digits_val_split(a, k);
    lemma_digits_val_split(b, k);
    let m = (a.len() - k) as nat;
    lemma_digits_val_head(a.skip(k));
    lemma_digits_val_head(b.skip(k));
    assert(a.skip(k)[0] == a[k]);
    assert(b.skip(k)[0] == b[k]);
    let ta = a.skip(k).skip(1);
    let tb = b.skip(k).skip(1);
    assert(all_digits(ta)) by {
        assert(forall|i: int| 0 <= i < ta.len() ==> ta[i] == a[k + 1 + i]);
    }
    assert(all_digits(tb)) by {
        assert(forall|i: int| 0 <= i < tb.len() ==> tb[i] == b[k + 1 + i]);
    }
    lemma_digits_val_bound(ta);
    lemma_digits_val_bound(tb);
    let p = pow10((m - 1) as nat);
    assert(pow10(m) == 10 * p);
    assert(digits_val(a.skip(k)) < (digit_val(a[k]) + 1) * p) by (nonlinear_arith)
        requires
            digits_val(a.skip(k)) == digit_val(a[k]) * p + digits_val(ta),
            digits_val(ta) < p,
    ;
    assert((digit_val(a[k]) + 1) * p <= digit_val(b[k]) * p) by (nonlinear_arith)
        requires
            digit_val(a[k]) + 1 <= digit_val(b[k]),
            p > 0,
    ;
    lemma_pow10_pos((m - 1) as nat);
    assert(digits_val(b.skip(k)) >= digit_val(b[k]) * p) by {
        lemma_digits_val_bound(tb);
    }
}


/// Reads the digit characters of `v` into a little-endian vector of
/// digit values: entry 0 is the least significant digit.
pub(crate) fn str_to_digits(v: &str) -> (d: Vec<u8>)
    requires
        all_digits(v@),
    ensures
        d@.len() == v@.len(),
        forall|j: int| 0 <= j < d@.len() ==> #[trigger] d@[j] == digit_val(v@[v@.len() - 1 - j]),
        all_below_ten(d@),
        le_val(d@) == digits_val(v@),
{
    let n = v.unicode_len();
    let mut d: Vec<u8> = Vec::new();
    let mut i: usize = 0;
    while i < n
        invariant
            n == v@.len(),
            all_digits(v@),
            0 <= i <= n,
            d@.len() == i,
            forall|j: int| 0 <= j < i ==> #[trigger] d@[j] == digit_val(v@[n - 1 - j]),
            all_below_ten(d@),
        decreases n - i,
    {
        let c = v.get_char(n - 1 - i);
        assert(is_digit(c));
        let x: u32 = c as u32;
        let dig: u8 = (x - 48) as u8;
        d.push(dig);
        i = i + 1;
    }
    proof {
        lemma_rev_digits_val(v@, d@);
    }
    d
}

/// The digit of `d` at position `i`, reading 0 past the end.
pub(crate) fn digit_get(d: &Vec<u8>, i: usize) -> (r: u8)
    ensures
        r == digit_at(d@, i as int),
{
    if i < d.len() {
        d[i]
    } else {
        0
    }
}

/// Appends the character for the digit `d` to `s`.
pub(crate) fn push_digit(s: &mut String, d: u8)
    requires
        d < 10,
    ensures
        final(s)@ == old(s)@.push(digit_char(d as int)),
{
    proof {
        reveal_strlit("0");
        reveal_strlit("1");
        reveal_strlit("2");
        reveal_strlit("3");
        reveal_strlit("4");
        reveal_strlit("5");
        reveal_strlit("6");
        reveal_strlit("7");
        reveal_strlit("8");
        reveal_strlit("9");
    }
    if d == 0 {
        s.append("0");
        assert(old(s)@ + "0"@ =~= old(s)@.push('0'));
    } else if d == 1 {
        s.append("1");
        assert(old(s)@ + "1"@ =~= old(s)@.push('1'));
    } else if d == 2 {
        s.append("2");
        assert(old(s)@ + "2"@ =~= old(s)@.push('2'));
    } else if d == 3 {
        s.append("3");
        assert(old(s)@ + "3"@ =~= old(s)@.push('3'));
    } else if d == 4 {
        s.append("4");
        assert(old(s)@ + "4"@ =~= old(s)@.push('4'));
    } else if d == 5 {
        s.append("5");
        assert(old(s)@ + "5"@ =~= old(s)@.push('5'));
    } else if d == 6 {
        s.append("6");
        assert(old(s)@ + "6"@ =~= old(s)@.push('6'));
    } else if d == 7 {
        s.append("7");
        assert(old(s)@ + "7"@ =~= old(s)@.push('7'));
    } else if d == 8 {
        s.append("8");
        assert(old(s)@ + "8"@ =~= old(s)@.push('8'));
    } else {
        s.append("9");
        assert(old(s)@ + "9"@ =~= old(s)@.push('9'));
    }
}

/// Removes useless most-significant zero digits, keeping at least one digit.
pub(crate) fn trim_zeros(d: &mut Vec<u8>)
    requires
        old(d)@.len() >= 1,
        all_below_ten(old(d)@),
    ensures
        le_val(final(d)@) == le_val(old(d)@),
        all_below_ten(final(d)@),
        final(d)@.len() >= 1,
        final(d)@.len() > 1 ==> final(d)@.last() != 0,
{
    while d.len() > 1 && d[d.len() - 1] == 0
        invariant
            d@.len() >= 1,
            all_below_ten(d@),
            le_val(d@) == le_val(old(d)@),
        decreases d@.len(),
    {
        let ghost prev = d@;
        d.pop();
        proof {
            assert(prev =~= d@.push(0u8));
            lemma_le_val_push(d@, 0u8);
        }
    }
}

/// Renders a little-endian digit vector as a canonical decimal string.
pub(crate) fn digits_to_str(d: &Vec<u8>) -> (r: String)
    requires
        d@.len() >= 1,
        all_below_ten(d@),
        d@.len() > 1 ==> d@.last() != 0,
    ensures
        canon_digits(r@),
        digits_val(r@) == le_val(d@),
        r@.len() == d@.len(),
{
    let mut r = String::new();
    let mut i: usize = d.len();
    while i > 0
        invariant
            0 <= i <= d@.len(),
            d@.len() >= 1,
            all_below_ten(d@),
            d@.len() > 1 ==> d@.last() != 0,
            r@.len() == d@.len() - i,
            digits_val(r@) == le_val(d@.skip(i as int)),
            forall|j: int| 0 <= j < r@.len() ==> is_digit(#[trigger] r@[j]),
            i < d@.len() ==> r@[0] == digit_char(d@.last() as int),
        decreases i,
    {
        let ghost prev = r@;
        let dig = d[i - 1];
        push_digit(&mut r, dig);
        proof {
            assert(digit_val(digit_char(dig as int)) == dig);
            assert(is_digit(digit_char(dig as int)));
            assert(r@.drop_last() =~= prev);
            assert(d@.skip(i - 1)[0] == d@[i - 1]);
            assert(d@.skip(i - 1).skip(1) =~= d@.skip(i as int));
            assert(le_val(d@.skip(i - 1)) == d@[i - 1] + 10 * le_val(d@.skip(i as int)));
            if prev.len() == 0 {
                assert(i == d@.len());
                assert(r@[0] == digit_char(d@.last() as int));
            } else {
                assert(r@[0] == prev[0]);
            }
        }
        i = i - 1;
    }
    proof {
        assert(d@.skip(0) =~= d@);
        if r@.len() > 1 {
            assert(r@[0] == digit_char(d@.last() as int));
            assert(d@.last() != 0);
            assert(digit_val(digit_char(d@.last() as int)) == d@.last());
            assert(r@[0] != '0');
        }
    }
    r
}


/// A vector of zero cells is worth zero.
pub proof fn lemma_le_val_wide_zero(d: Seq<u64>)
    requires
        forall|i: int| 0 <= i < d.len() ==> #[trigger] d[i] == 0,
    ensures
        le_val_wide(d) == 0,
    decreases d.len(),
{
    if d.len() > 0 {
        let t = d.skip(1);
        assert(forall|i: int| 0 <= i < t.len() ==> #[trigger] t[i] == d[i + 1]);
        lemma_le_val_wide_zero(t);
    }
}

/// Replacing the cell at position `k` changes the value by the difference
/// times the right power of ten.
pub proof fn lemma_le_val_wide_update(d: Seq<u64>, k: int, v: u64)
    requires
        0 <= k < d.len(),
    ensures
        le_val_wide(d.update(k, v)) == le_val_wide(d) + (v - d[k]) * pow10(k as nat),
    decreases k,
{
    if k == 0 {
        assert(d.update(0, v).skip(1) =~= d.skip(1));
        assert(le_val_wide(d.update(0, v)) == v + 10 * le_val_wide(d.skip(1)));
        assert((v - d[0]) * pow10(0) == v - d[0]) by (nonlinear_arith);
    } else {
        lemma_le_val_wide_update(d.skip(1), k - 1, v);
        assert(d.update(k, v).skip(1) =~= d.skip(1).update(k - 1, v));
        assert(d.update(k, v)[0] == d[0]);
        assert(d.skip(1)[k - 1] == d[k]);
        assert(le_val_wide(d.update(k, v)) == d[0] + 10 * le_val_wide(d.skip(1).update(k - 1, v)));
        assert(pow10(k as nat) == 10 * pow10((k - 1) as nat));
        assert(10 * (le_val_wide(d.skip(1)) + (v - d[k]) * pow10((k - 1) as nat)) == 10
            * le_val_wide(d.skip(1)) + (v - d[k]) * (10 * pow10((k - 1) as nat)))
            by (nonlinear_arith);
    }
}

/// Peeling the least significant cell off a suffix of a wide vector.
pub proof fn lemma_le_val_wide_suffix(d: Seq<u64>, i: int)
    requires
        0 <= i < d.len(),
    ensures
        le_val_wide(d.skip(i)) == d[i] + 10 * le_val_wide(d.skip(i + 1)),
{
    assert(d.skip(i)[0] == d[i]);
    assert(d.skip(i).skip(1) =~= d.skip(i + 1));
}

/// An integer power of a non-negative base, split over a sum of exponents.
pub proof fn lemma_pow_int_adds(b: int, x: nat, y: nat)
    ensures
        pow_int(b, x + y) == pow_int(b, x) * pow_int(b, y),
    decreases x,
{
    if x == 0 {
        assert(pow_int(b, y) * 1 == pow_int(b, y)) by (nonlinear_arith);
    } else {
        lemma_pow_int_adds(b, (x - 1) as nat, y);
        assert(pow_int(b, x + y) == b * pow_int(b, (x + y - 1) as nat));
        assert(b * (pow_int(b, (x - 1) as nat) * pow_int(b, y)) == (b * pow_int(b, (x - 1) as nat))
            * pow_int(b, y)) by (nonlinear_arith);
    }
}

/// A power of a base below 10^l stays below 10^(l*e), and is non-negative.
pub proof fn lemma_pow_int_bound(b: int, l: nat, e: nat)
    requires
        0 <= b < pow10(l),
    ensures
        0 <= pow_int(b, e) <= pow10(l * e),
    decreases e,
{
    lemma_pow10_pos(l * e);
    if e > 0 {
        lemma_pow_int_bound(b, l, (e - 1) as nat);
        let prev = pow_int(b, (e - 1) as nat);
        assert(l * e == l * (e - 1) + l) by (nonlinear_arith);
        lemma_pow10_adds(l * (e - 1) as nat, l);
        assert(b * prev <= pow10(l) * pow10(l * (e - 1) as nat)) by (nonlinear_arith)
            requires
                0 <= b < pow10(l),
                0 <= prev <= pow10(l * (e - 1) as nat),
        ;
        assert(b * prev >= 0) by (nonlinear_arith)
            requires
                b >= 0,
                prev >= 0,
        ;
    }
}

/// A canonical unsigned string worth less than 10^m has at most `m` digits.
pub proof fn lemma_canon_len_le(s: Seq<char>, m: nat)
    requires
        canon_digits(s),
        m >= 1,
        digits_val(s) < pow10(m),
    ensures
        s.len() <= m,
{
    if s.len() > m {
        if s.len() == 1 && s[0] == '0' {
        } else {
            lemma_canon_lower(s);
            lemma_pow10_increases(m, (s.len() - 1) as nat);
        }
    }
}


/// A canonical signed string whose magnitude is below 10^m has at most
/// `m + 1` characters (one extra for a possible sign).
pub proof fn lemma_canon_int_len(s: Seq<char>, m: nat)
    requires
        canon_int(s),
        m >= 1,
        -pow10(m) < str_int(s) < pow10(m),
    ensures
        s.len() <= m + 1,
{
    if canon_digits(s) {
        assert(is_digit(s[0]));
        assert(s[0] != '-');
        lemma_canon_len_le(s, m);
    } else {
        lemma_canon_len_le(s.skip(1), m);
    }
}

} // verus!\n