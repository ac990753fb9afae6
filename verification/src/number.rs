//! Numbers: which literals are 64-bit integers, and which are too large for
//! a finite 64-bit binary float.

use vstd::prelude::*;
use crate::grammar::{digit_count, is_digit, lemma_digit_count, number_shape, NumberShape};
use crate::text::chars_of;

verus! {

/// The value of a digit.
pub open spec fn digit_value(c: char) -> int {
    c as int - '0' as int
}

/// The number that the digits `s` spell in base ten.
pub open spec fn digits_value(s: Seq<char>) -> int
    decreases s.len(),
{
    if s.len() == 0 {
        0
    } else {
        digits_value(s.drop_last()) * 10 + digit_value(s.last())
    }
}

/// Whether `s` holds digits only.
pub open spec fn all_digits(s: Seq<char>) -> bool {
    forall|i: int| 0 <= i < s.len() ==> is_digit(#[trigger] s[i])
}

/// The integer that `s` spells: an optional sign, `+` or `-`, and one or
/// more digits. Anything else spells none.
pub open spec fn integer_value(s: Seq<char>) -> Option<int> {
    let signed = s.len() > 0 && (s[0] == '-' || s[0] == '+');
    let body = if signed {
        s.drop_first()
    } else {
        s
    };
    if body.len() == 0 || !all_digits(body) {
        None
    } else if s[0] == '-' {
        Some(-digits_value(body))
    } else {
        Some(digits_value(body))
    }
}

/// The 64-bit signed integer that `s` spells, if it spells an integer and
/// the integer fits.
pub open spec fn integer_of(s: Seq<char>) -> Option<i64> {
    match integer_value(s) {
        Some(v) => if i64::MIN <= v <= i64::MAX {
            Some(v as i64)
        } else {
            None
        },
        None => None,
    }
}

/// Digits spell a number that is not negative, and more digits spell no
/// smaller one.
pub proof fn lemma_digits_value_grows(s: Seq<char>, k: int)
    requires
        all_digits(s),
        0 <= k <= s.len(),
    ensures
        0 <= digits_value(s.take(k)) <= digits_value(s),
    decreases s.len() - k,
{
    lemma_digits_value_nonnegative(s.take(k));
    if k < s.len() {
        lemma_digits_value_grows(s, k + 1);
        assert(s.take(k + 1).drop_last() =~= s.take(k));
        assert(s.take(k + 1).last() == s[k]);
    } else {
        assert(s.take(k) =~= s);
    }
}

/// Digits spell a number that is not negative.
pub proof fn lemma_digits_value_nonnegative(s: Seq<char>)
    requires
        all_digits(s),
    ensures
        0 <= digits_value(s),
    decreases s.len(),
{
    if s.len() > 0 {
        lemma_digits_value_nonnegative(s.drop_last());
    }
}

/// The 64-bit signed integer that `text` spells in base ten, with an
/// optional sign.
pub fn parse_i64(text: &Vec<char>) -> (r: Option<i64>)
    ensures
        r == integer_of(text@),
{
    let n = text.len();
    if n == 0 {
        return None;
    }
    let negative = text[0] == '-';
    let start: usize = if text[0] == '-' || text[0] == '+' { 1 } else { 0 };
    if start == n {
        return None;
    }
    let ghost body = text@.skip(start as int);
    assert(body =~= if start == 1 { text@.drop_first() } else { text@ });
    let mut magnitude: i128 = 0;
    let mut i: usize = start;
    while i < n
        invariant
            n == text.len(),
            start <= i <= n,
            start < n,
            start <= 1,
            body == text@.skip(start as int),
            start == 1 ==> body == text@.drop_first() && (text@[0] == '-' || text@[0] == '+'),
            start == 0 ==> body == text@ && text@[0] != '-' && text@[0] != '+',
            negative == (text@[0] == '-'),
            all_digits(body.take(i - start)),
            magnitude == digits_value(body.take(i - start)),
            0 <= magnitude <= 0x8000_0000_0000_0000,
        decreases n - i,
    {
        let c = text[i];
        if c < '0' || c > '9' {
            assert(!is_digit(body[i - start]));
            return None;
        }
        proof {
            assert(body.take(i - start + 1).drop_last() =~= body.take(i - start));
            assert(body.take(i - start + 1).last() == c);
        }
        magnitude = magnitude * 10 + (c as u32 - '0' as u32) as i128;
        i = i + 1;
        if magnitude > 0x8000_0000_0000_0000 {
            proof {
                if all_digits(body) {
                    lemma_digits_value_grows(body, i - start);
                }
            }
            return None;
        }
    }
    assert(body.take(i - start) =~= body);
    if negative {
        Some((-magnitude) as i64)
    } else if magnitude == 0x8000_0000_0000_0000 {
        None
    } else {
        Some(magnitude as i64)
    }
}

/// The parts of a number literal, each by its length.
#[derive(Clone, Copy, Debug, PartialEq, Eq, Structural)]
pub struct NumberLayout {
    /// 1 where the literal begins with a minus sign, else 0.
    pub sign: usize,
    /// The digits before the point.
    pub int_len: usize,
    /// The point and the digits after it; 0 without a fraction.
    pub frac_len: usize,
    /// The marker, the sign and the digits of the exponent; 0 without one.
    pub exp_len: usize,
}

impl View for NumberLayout {
    type V = NumberShape;

    open spec fn view(&self) -> NumberShape {
        NumberShape {
            sign: self.sign as int,
            int_len: self.int_len as int,
            frac_len: self.frac_len as int,
            exp_len: self.exp_len as int,
        }
    }
}

/// What skipping does to a text: the lengths, the first character, and
/// skipping again.
proof fn lemma_skip(s: Seq<char>, a: int)
    requires
        0 <= a <= s.len(),
    ensures
        s.skip(a).len() == s.len() - a,
        a < s.len() ==> s.skip(a)[0] == s[a] && s.skip(a).drop_first() == s.skip(a + 1),
        a + 1 < s.len() ==> s.skip(a)[1] == s[a + 1] && s.skip(a).skip(2) == s.skip(a + 2),
        a < s.len() ==> s.skip(a).skip(1) == s.skip(a + 1),
{
    if a < s.len() {
        assert(s.skip(a).drop_first() =~= s.skip(a + 1));
        assert(s.skip(a).skip(1) =~= s.skip(a + 1));
    }
    if a + 1 < s.len() {
        assert(s.skip(a).skip(2) =~= s.skip(a + 2));
    }
}

/// How many digits stand in `text` from place `from` on.
fn count_digits(text: &Vec<char>, from: usize) -> (r: usize)
    requires
        from <= text.len(),
    ensures
        r == digit_count(text@.skip(from as int)),
        from + r <= text.len(),
{
    let mut i: usize = from;
    while i < text.len() && text[i] >= '0' && text[i] <= '9'
        invariant
            from <= i <= text.len(),
            digit_count(text@.skip(from as int)) == (i - from) + digit_count(text@.skip(i as int)),
        decreases text.len() - i,
    {
        proof {
            lemma_skip(text@, i as int);
        }
        i = i + 1;
    }
    proof {
        lemma_skip(text@, i as int);
    }
    i - from
}

/// The parts of `text`, where the whole of it is one number literal of the
/// grammar.
pub fn number_layout(text: &Vec<char>) -> (r: Option<NumberLayout>)
    ensures
        match number_shape(text@) {
            Ok(shape) => if shape.len() == text@.len() {
                r matches Some(layout) && layout@ == shape
            } else {
                r is None
            },
            Err(_) => r is None,
        },
{
    let n = text.len();
    let sign: usize = if n > 0 && text[0] == '-' { 1 } else { 0 };
    proof {
        lemma_skip(text@, sign as int);
    }
    if sign >= n || text[sign] < '0' || text[sign] > '9' {
        return None;
    }
    let more = count_digits(text, sign + 1);
    if text[sign] == '0' && more > 0 {
        return None;
    }
    let int_len = 1 + more;
    let mut pos = sign + int_len;
    proof {
        lemma_skip(text@, pos as int);
    }
    let mut frac_len: usize = 0;
    if pos < n && text[pos] == '.' {
        let k = count_digits(text, pos + 1);
        if k == 0 {
            return None;
        }
        frac_len = 1 + k;
        pos = pos + frac_len;
    }
    proof {
        lemma_skip(text@, pos as int);
    }
    let mut exp_len: usize = 0;
    if pos < n && (text[pos] == 'e' || text[pos] == 'E') {
        if pos + 1 >= n {
            return None;
        }
        let signed: usize = if text[pos + 1] == '+' || text[pos + 1] == '-' { 1 } else { 0 };
        proof {
            lemma_skip(text@, pos + 1);
        }
        let k = count_digits(text, pos + 1 + signed);
        if k == 0 {
            return None;
        }
        exp_len = 1 + signed + k;
        pos = pos + exp_len;
    }
    if pos != n {
        return None;
    }
    Some(NumberLayout { sign, int_len, frac_len, exp_len })
}

/// The least magnitude that does not round to a finite 64-bit binary
/// float: 2^1024 - 2^970, halfway between the largest finite value and
/// 2^1024, in decimal digits.
pub const FINITE_LIMIT: &'static str =
    "179769313486231580793728971405303415079934132710037826936173778980444968292764750946649017977587207096330286416692887910946555547851940402630657488671505820681908902000708383676273854845817711531764475730270069855571366959622842914819860834936475292719074168444365510704342711559699508093042880177904174497792";

/// The digits of the integer part and of the fraction, in one row.
pub open spec fn mantissa_digits(s: Seq<char>, shape: NumberShape) -> Seq<char> {
    if shape.frac_len > 0 {
        s.subrange(shape.sign, shape.sign + shape.int_len) + s.subrange(
            shape.sign + shape.int_len + 1,
            shape.mantissa_len(),
        )
    } else {
        s.subrange(shape.sign, shape.sign + shape.int_len)
    }
}

/// The exponent that the literal states; 0 where it states none.
pub open spec fn exponent_value(s: Seq<char>, shape: NumberShape) -> int {
    let at = shape.mantissa_len();
    if shape.exp_len == 0 {
        0
    } else if s[at + 1] == '-' {
        -digits_value(s.subrange(at + 2, shape.len()))
    } else if s[at + 1] == '+' {
        digits_value(s.subrange(at + 2, shape.len()))
    } else {
        digits_value(s.subrange(at + 1, shape.len()))
    }
}

/// How many zeros `digits` begins with.
pub open spec fn leading_zeros(digits: Seq<char>) -> int
    decreases digits.len(),
{
    if digits.len() > 0 && digits[0] == '0' {
        1 + leading_zeros(digits.drop_first())
    } else {
        0
    }
}

/// The digit at place `i` of `digits`, continued with zeros.
pub open spec fn digit_at(digits: Seq<char>, i: int) -> char {
    if 0 <= i < digits.len() {
        digits[i]
    } else {
        '0'
    }
}

/// Whether `digits`, continued with zeros, is no smaller than `bound` from
/// place `k` on, both read as fractions: the first place in which they
/// differ decides, and with none they are equal.
pub open spec fn digits_reach(digits: Seq<char>, bound: Seq<char>, k: int) -> bool
    decreases bound.len() - k,
{
    if k < 0 || k >= bound.len() {
        true
    } else if digit_at(digits, k) != bound[k] {
        digit_at(digits, k) > bound[k]
    } else {
        digits_reach(digits, bound, k + 1)
    }
}

/// The power of ten that the number lies under: with the first digit that
/// is not zero taken as the first after the point, the exponent of ten that
/// goes with it.
pub open spec fn decimal_magnitude(s: Seq<char>, shape: NumberShape) -> int {
    shape.int_len - leading_zeros(mantissa_digits(s, shape)) + exponent_value(s, shape)
}

/// Whether the number literal `s` is so large in magnitude that it rounds
/// to no finite 64-bit binary float: it is not zero, and it lies above the
/// power of ten of [`FINITE_LIMIT`], or under the same power of ten with
/// digits that are no smaller than those of the limit. In numbers: the
/// literal states a number no smaller than the limit
/// ([`crate::magnitude::lemma_exceeds_finite`]).
pub open spec fn exceeds_finite(s: Seq<char>) -> bool {
    number_shape(s) matches Ok(shape) && {
        let digits = mantissa_digits(s, shape);
        let zeros = leading_zeros(digits);
        let magnitude = decimal_magnitude(s, shape);
        let limit = FINITE_LIMIT@;
        zeros < digits.len() && (magnitude > limit.len() || (magnitude == limit.len()
            && digits_reach(digits.skip(zeros), limit, 0)))
    }
}

/// The leading zeros are zeros, and what follows them is none.
pub proof fn lemma_leading_zeros(digits: Seq<char>)
    ensures
        0 <= leading_zeros(digits) <= digits.len(),
        forall|i: int| 0 <= i < leading_zeros(digits) ==> digits[i] == '0',
        leading_zeros(digits) < digits.len() ==> digits[leading_zeros(digits)] != '0',
    decreases digits.len(),
{
    if digits.len() > 0 && digits[0] == '0' {
        let t = digits.drop_first();
        lemma_leading_zeros(t);
        assert forall|i: int| 0 <= i < leading_zeros(digits) implies digits[i] == '0' by {
            if i > 0 {
                assert(digits[i] == t[i - 1]);
            }
        }
        if leading_zeros(digits) < digits.len() {
            assert(digits[leading_zeros(digits)] == t[leading_zeros(t)]);
        }
    }
}

/// The count of leading zeros is the first place that holds no zero.
proof fn lemma_leading_zeros_is(digits: Seq<char>, z: int)
    requires
        0 <= z <= digits.len(),
        forall|i: int| 0 <= i < z ==> digits[i] == '0',
        z < digits.len() ==> digits[z] != '0',
    ensures
        leading_zeros(digits) == z,
{
    lemma_leading_zeros(digits);
    let l = leading_zeros(digits);
    if l < z {
        assert(digits[l] == '0');
    } else if z < l {
        assert(digits[z] == '0');
    }
}

/// The digit at place `k` of the mantissa of `text`.
fn mantissa_digit(text: &Vec<char>, layout: &NumberLayout, k: usize) -> (r: char)
    requires
        number_shape(text@) == Ok::<NumberShape, crate::json_error::JsonError>(layout@),
        layout@.len() == text@.len(),
        k < mantissa_digits(text@, layout@).len(),
    ensures
        r == mantissa_digits(text@, layout@)[k as int],
{
    let n = text.len();
    proof {
        crate::grammar::lemma_number_shape(text@);
    }
    if k < layout.int_len {
        text[layout.sign + k]
    } else {
        text[layout.sign + k + 1]
    }
}

/// How many digits the mantissa of `text` has.
fn mantissa_len(text: &Vec<char>, layout: &NumberLayout) -> (r: usize)
    requires
        number_shape(text@) == Ok::<NumberShape, crate::json_error::JsonError>(layout@),
        layout@.len() == text@.len(),
    ensures
        r == mantissa_digits(text@, layout@).len(),
        r >= 1,
{
    let n = text.len();
    proof {
        crate::grammar::lemma_number_shape(text@);
    }
    if layout.frac_len > 0 {
        layout.int_len + (layout.frac_len - 1)
    } else {
        layout.int_len
    }
}

/// The exponent of `text`, exact up to 10^29 in magnitude and beyond that
/// some number beyond it: there the exponent alone decides.
fn clamped_exponent(text: &Vec<char>, layout: &NumberLayout) -> (r: i128)
    requires
        number_shape(text@) == Ok::<NumberShape, crate::json_error::JsonError>(layout@),
        layout@.len() == text@.len(),
    ensures
        -2_000_000_000_000_000_000_000_000_000_000 <= r,
        r <= 2_000_000_000_000_000_000_000_000_000_000,
        ({
            let e = exponent_value(text@, layout@);
            if e > 100_000_000_000_000_000_000_000_000_000 {
                r > 100_000_000_000_000_000_000_000_000_000
            } else if e < -100_000_000_000_000_000_000_000_000_000 {
                r < -100_000_000_000_000_000_000_000_000_000
            } else {
                r == e
            }
        }),
{
    let n = text.len();
    proof {
        crate::grammar::lemma_number_shape(text@);
    }
    if layout.exp_len == 0 {
        return 0;
    }
    let at = layout.sign + layout.int_len + layout.frac_len;
    proof {
        lemma_skip(text@, at as int);
        lemma_skip(text@, at + 1);
    }
    let negative = text[at + 1] == '-';
    let start: usize = if text[at + 1] == '-' || text[at + 1] == '+' { at + 2 } else { at + 1 };
    let ghost digits = text@.subrange(start as int, n as int);
    proof {
        lemma_digit_count(text@.skip(start as int));
        assert(digits =~= text@.skip(start as int));
    }
    let mut value: i128 = 0;
    let mut i: usize = start;
    while i < n
        invariant
            n == text.len(),
            start <= i <= n,
            digits == text@.subrange(start as int, n as int),
            all_digits(digits),
            0 <= value <= 2_000_000_000_000_000_000_000_000_000_000,
            value <= 100_000_000_000_000_000_000_000_000_000 ==> value == digits_value(
                digits.take(i - start),
            ),
            value > 100_000_000_000_000_000_000_000_000_000 ==> digits_value(
                digits.take(i - start),
            ) > 100_000_000_000_000_000_000_000_000_000,
        decreases n - i,
    {
        let c = text[i];
        proof {
            assert(digits.take(i - start + 1).drop_last() =~= digits.take(i - start));
            assert(digits.take(i - start + 1).last() == c);
            assert(is_digit(digits[i - start]));
            assert(all_digits(digits.take(i - start))) by {
                assert forall|j: int| 0 <= j < i - start implies is_digit(
                    #[trigger] digits.take(i - start)[j],
                ) by {
                    assert(is_digit(digits[j]));
                }
            }
            lemma_digits_value_nonnegative(digits.take(i - start));
        }
        if value <= 100_000_000_000_000_000_000_000_000_000 {
            value = value * 10 + (c as u32 - '0' as u32) as i128;
        }
        i = i + 1;
    }
    assert(digits.take(i - start) =~= digits);
    if negative {
        -value
    } else {
        value
    }
}

/// Whether the number literal `text` is too large in magnitude for a
/// finite 64-bit binary float.
pub fn exceeds_finite_range(text: &Vec<char>, layout: &NumberLayout) -> (r: bool)
    requires
        number_shape(text@) == Ok::<NumberShape, crate::json_error::JsonError>(layout@),
        layout@.len() == text@.len(),
    ensures
        r == exceeds_finite(text@),
{
    let ghost digits = mantissa_digits(text@, layout@);
    let count = mantissa_len(text, layout);
    let mut zeros: usize = 0;
    while zeros < count && mantissa_digit(text, layout, zeros) == '0'
        invariant
            number_shape(text@) == Ok::<NumberShape, crate::json_error::JsonError>(layout@),
            layout@.len() == text@.len(),
            digits == mantissa_digits(text@, layout@),
            count == digits.len(),
            zeros <= count,
            forall|i: int| 0 <= i < zeros ==> digits[i] == '0',
        decreases count - zeros,
    {
        zeros = zeros + 1;
    }
    proof {
        lemma_leading_zeros_is(digits, zeros as int);
    }
    if zeros == count {
        return false;
    }
    let exponent = clamped_exponent(text, layout);
    let limit = chars_of(FINITE_LIMIT);
    let magnitude: i128 = layout.int_len as i128 - zeros as i128 + exponent;
    let limit_len = limit.len() as i128;
    if magnitude > limit_len {
        return true;
    }
    if magnitude < limit_len {
        return false;
    }
    let ghost tail = digits.skip(zeros as int);
    let mut k: usize = 0;
    while k < limit.len()
        invariant
            number_shape(text@) == Ok::<NumberShape, crate::json_error::JsonError>(layout@),
            layout@.len() == text@.len(),
            digits == mantissa_digits(text@, layout@),
            count == digits.len(),
            zeros < count,
            tail == digits.skip(zeros as int),
            limit@ == FINITE_LIMIT@,
            leading_zeros(digits) == zeros,
            decimal_magnitude(text@, layout@) == limit@.len(),
            k <= limit.len(),
            digits_reach(tail, limit@, 0) == digits_reach(tail, limit@, k as int),
        decreases limit.len() - k,
    {
        let d = if k < count - zeros {
            mantissa_digit(text, layout, zeros + k)
        } else {
            '0'
        };
        assert(d == digit_at(tail, k as int));
        if d != limit[k] {
            return d > limit[k];
        }
        k = k + 1;
    }
    true
}

} // verus!
