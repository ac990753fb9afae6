//! What the test of a number's digits against the digits of the limit
//! means in numbers: the number, as its literal states it, is no smaller
//! than the limit.

use vstd::arithmetic::power::{
    lemma_pow0, lemma_pow1, lemma_pow_adds, lemma_pow_increases, lemma_pow_positive, pow,
};
use vstd::prelude::*;
use crate::grammar::{
    is_digit, is_json_number, lemma_digit_count, lemma_number_shape, number_shape, NumberShape,
};
use crate::number::{
    all_digits, digit_at, digit_value, digits_reach, digits_value, exceeds_finite,
    exponent_value, leading_zeros, lemma_leading_zeros, mantissa_digits, FINITE_LIMIT,
};

verus! {

/// Digits after digits spell the first number, moved up by as many places
/// as there are digits after it, and the second.
pub proof fn lemma_value_concat(a: Seq<char>, b: Seq<char>)
    ensures
        digits_value(a + b) == digits_value(a) * pow(10, b.len()) + digits_value(b),
    decreases b.len(),
{
    if b.len() == 0 {
        assert(a + b =~= a);
        lemma_pow0(10);
    } else {
        let shorter = b.drop_last();
        lemma_value_concat(a, shorter);
        assert((a + b).drop_last() =~= a + shorter);
        assert((a + b).last() == b.last());
        lemma_pow_adds(10, shorter.len(), 1);
        lemma_pow1(10);
        let va = digits_value(a);
        let p = pow(10, shorter.len());
        assert((va * p + digits_value(shorter)) * 10 == va * (p * 10) + digits_value(shorter) * 10)
            by (nonlinear_arith);
    }
}

/// Digits spell a number below the power of ten of their count.
pub proof fn lemma_value_bound(b: Seq<char>)
    requires
        all_digits(b),
    ensures
        0 <= digits_value(b) < pow(10, b.len()),
    decreases b.len(),
{
    if b.len() == 0 {
        lemma_pow0(10);
    } else {
        let shorter = b.drop_last();
        lemma_value_bound(shorter);
        lemma_pow_adds(10, shorter.len(), 1);
        lemma_pow1(10);
        assert(is_digit(b[b.len() - 1]));
    }
}

/// Digits that begin with a digit other than zero spell a number that
/// reaches the power of ten of the count of the digits after the first.
pub proof fn lemma_value_reaches(b: Seq<char>)
    requires
        all_digits(b),
        b.len() >= 1,
        b[0] != '0',
    ensures
        pow(10, (b.len() - 1) as nat) <= digits_value(b),
{
    let first = seq![b[0]];
    let rest = b.drop_first();
    assert(b =~= first + rest);
    lemma_value_concat(first, rest);
    assert(all_digits(rest)) by {
        assert forall|i: int| 0 <= i < rest.len() implies is_digit(#[trigger] rest[i]) by {
            assert(rest[i] == b[i + 1]);
        }
    }
    lemma_value_bound(rest);
    assert(first.drop_last() =~= Seq::<char>::empty());
    assert(digits_value(first.drop_last()) == 0);
    assert(is_digit(b[0]));
    assert(digits_value(first) >= 1);
    lemma_pow_positive(10, rest.len());
    let p = pow(10, rest.len());
    assert(digits_value(first) * p >= p) by (nonlinear_arith)
        requires
            digits_value(first) >= 1,
            p > 0,
    ;
}

/// Zeros spell zero.
pub proof fn lemma_value_zeros(b: Seq<char>)
    requires
        forall|i: int| 0 <= i < b.len() ==> b[i] == '0',
    ensures
        digits_value(b) == 0,
    decreases b.len(),
{
    if b.len() > 0 {
        lemma_value_zeros(b.drop_last());
    }
}

/// The first `n` places of `digits`, continued with zeros.
pub open spec fn padded(digits: Seq<char>, n: nat) -> Seq<char> {
    Seq::new(n, |i: int| digit_at(digits, i))
}

/// Comparing digits place by place from the left is comparing the
/// numbers that they spell: with the same count of digits, and the same
/// digits in the first `k` places, the first place that differs decides.
pub proof fn lemma_digits_reach(digits: Seq<char>, bound: Seq<char>, k: int)
    requires
        all_digits(digits),
        all_digits(bound),
        0 <= k <= bound.len(),
        padded(digits, bound.len()).take(k) == bound.take(k),
    ensures
        digits_reach(digits, bound, k) == (digits_value(padded(digits, bound.len()))
            >= digits_value(bound)),
    decreases bound.len() - k,
{
    let n = bound.len();
    let x = padded(digits, n);
    if k == n {
        assert(x.take(k) =~= x);
        assert(bound.take(k) =~= bound);
    } else {
        assert(x[k] == digit_at(digits, k));
        if x[k] == bound[k] {
            assert(x.take(k + 1) =~= x.take(k).push(x[k]));
            assert(bound.take(k + 1) =~= bound.take(k).push(bound[k]));
            lemma_digits_reach(digits, bound, k + 1);
        } else {
            lemma_split_at(x, k);
            lemma_split_at(bound, k);
            assert(all_digits(x)) by {
                assert forall|i: int| 0 <= i < x.len() implies is_digit(#[trigger] x[i]) by {
                    if i < digits.len() {
                        assert(is_digit(digits[i]));
                    }
                }
            }
            lemma_tail_bound(x, k);
            lemma_tail_bound(bound, k);
            let p = pow(10, (n - k - 1) as nat);
            lemma_pow_positive(10, (n - k - 1) as nat);
            let high = digits_value(x.take(k));
            let dx = digit_value(x[k]);
            let db = digit_value(bound[k]);
            assert(is_digit(x[k]) && is_digit(bound[k]));
            assert((high * 10 + dx) * p - (high * 10 + db) * p == (dx - db) * p)
                by (nonlinear_arith);
            if x[k] > bound[k] {
                assert((dx - db) * p >= p) by (nonlinear_arith)
                    requires
                        dx - db >= 1,
                        p > 0,
                ;
            } else {
                assert((dx - db) * p <= -p) by (nonlinear_arith)
                    requires
                        dx - db <= -1,
                        p > 0,
                ;
            }
        }
    }
}

/// A row of digits spells what its first `k` digits and the digit after
/// them spell, moved up, and what the digits after those spell.
proof fn lemma_split_at(x: Seq<char>, k: int)
    requires
        0 <= k < x.len(),
    ensures
        digits_value(x) == (digits_value(x.take(k)) * 10 + digit_value(x[k])) * pow(
            10,
            (x.len() - k - 1) as nat,
        ) + digits_value(x.skip(k + 1)),
{
    let head = x.take(k + 1);
    let tail = x.skip(k + 1);
    assert(x =~= head + tail);
    lemma_value_concat(head, tail);
    assert(head.drop_last() =~= x.take(k));
    assert(head.last() == x[k]);
}

/// The digits after a place spell a number below the power of ten of
/// their count.
proof fn lemma_tail_bound(x: Seq<char>, k: int)
    requires
        all_digits(x),
        0 <= k < x.len(),
    ensures
        0 <= digits_value(x.skip(k + 1)) < pow(10, (x.len() - k - 1) as nat),
{
    let tail = x.skip(k + 1);
    assert forall|i: int| 0 <= i < tail.len() implies is_digit(#[trigger] tail[i]) by {
        assert(tail[i] == x[k + 1 + i]);
    }
    lemma_value_bound(tail);
}

/// Whether the number `mantissa` times ten to the power of `scale` is no
/// smaller than `bound`.
pub open spec fn at_least(mantissa: int, scale: int, bound: int) -> bool {
    if scale >= 0 {
        mantissa * pow(10, scale as nat) >= bound
    } else {
        mantissa >= bound * pow(10, (-scale) as nat)
    }
}

/// A number that lies under a higher power of ten than the bound is above
/// the bound.
proof fn lemma_compare_above(sig: Seq<char>, scale: int, bound: Seq<char>)
    requires
        all_digits(sig),
        sig.len() >= 1,
        sig[0] != '0',
        all_digits(bound),
        bound.len() >= 1,
        sig.len() + scale > bound.len(),
    ensures
        at_least(digits_value(sig), scale, digits_value(bound)),
{
    let k = sig.len();
    let n = bound.len();
    let m = digits_value(sig);
    let l = digits_value(bound);
    lemma_value_reaches(sig);
    lemma_value_bound(bound);
    let low = pow(10, (k - 1) as nat);
    if scale >= 0 {
        let e = scale as nat;
        let pe = pow(10, e);
        lemma_pow_positive(10, e);
        lemma_pow_adds(10, (k - 1) as nat, e);
        lemma_pow_increases(10, n, (k - 1 + e) as nat);
        assert(m * pe >= low * pe) by (nonlinear_arith)
            requires
                m >= low,
                pe > 0,
        ;
    } else {
        let q = (-scale) as nat;
        let pq = pow(10, q);
        lemma_pow_positive(10, q);
        lemma_pow_adds(10, n, q);
        lemma_pow_increases(10, n + q, (k - 1) as nat);
        let pn = pow(10, n);
        assert(l * pq <= pn * pq) by (nonlinear_arith)
            requires
                l <= pn,
                pq > 0,
        ;
    }
}

/// A number that lies under a lower power of ten than the bound is below
/// the bound.
proof fn lemma_compare_below(sig: Seq<char>, scale: int, bound: Seq<char>)
    requires
        all_digits(sig),
        sig.len() >= 1,
        all_digits(bound),
        bound.len() >= 1,
        bound[0] != '0',
        sig.len() + scale < bound.len(),
    ensures
        !at_least(digits_value(sig), scale, digits_value(bound)),
{
    let k = sig.len();
    let n = bound.len();
    let m = digits_value(sig);
    let l = digits_value(bound);
    lemma_value_bound(sig);
    lemma_value_reaches(bound);
    let pk = pow(10, k);
    let low = pow(10, (n - 1) as nat);
    if scale >= 0 {
        let e = scale as nat;
        let pe = pow(10, e);
        lemma_pow_positive(10, e);
        lemma_pow_adds(10, k, e);
        lemma_pow_increases(10, k + e, (n - 1) as nat);
        assert(m * pe < pk * pe) by (nonlinear_arith)
            requires
                m < pk,
                pe > 0,
        ;
    } else {
        let q = (-scale) as nat;
        let pq = pow(10, q);
        lemma_pow_positive(10, q);
        lemma_pow_adds(10, (n - 1) as nat, q);
        lemma_pow_increases(10, k, (n - 1 + q) as nat);
        assert(low * pq <= l * pq) by (nonlinear_arith)
            requires
                low <= l,
                pq > 0,
        ;
    }
}

/// A number that lies under the same power of ten as the bound is no
/// smaller than the bound where its digits, compared place by place,
/// are no smaller.
proof fn lemma_compare_level(sig: Seq<char>, scale: int, bound: Seq<char>)
    requires
        all_digits(sig),
        sig.len() >= 1,
        all_digits(bound),
        bound.len() >= 1,
        sig.len() + scale == bound.len(),
    ensures
        at_least(digits_value(sig), scale, digits_value(bound)) == digits_reach(sig, bound, 0),
{
    let k = sig.len();
    let n = bound.len();
    let m = digits_value(sig);
    let l = digits_value(bound);
    let x = padded(sig, n);
    assert(x.take(0) =~= bound.take(0));
    lemma_digits_reach(sig, bound, 0);
    if scale >= 0 {
        let e = scale as nat;
        let zeros = Seq::new(e, |i: int| '0');
        assert(x =~= sig + zeros);
        lemma_value_concat(sig, zeros);
        lemma_value_zeros(zeros);
    } else {
        let q = (-scale) as nat;
        let pq = pow(10, q);
        let head = sig.take(n as int);
        let tail = sig.skip(n as int);
        assert(x =~= head);
        assert(sig =~= head + tail);
        lemma_value_concat(head, tail);
        assert(all_digits(tail)) by {
            assert forall|i: int| 0 <= i < tail.len() implies is_digit(#[trigger] tail[i]) by {
                assert(tail[i] == sig[n + i]);
            }
        }
        lemma_value_bound(tail);
        lemma_pow_positive(10, q);
        let v = digits_value(head);
        if v >= l {
            assert(v * pq >= l * pq) by (nonlinear_arith)
                requires
                    v >= l,
                    pq > 0,
            ;
        } else {
            assert(v * pq <= l * pq - pq) by (nonlinear_arith)
                requires
                    v <= l - 1,
                    pq > 0,
            ;
        }
    }
}

/// The test by digits is the test by numbers: a number whose digits
/// `sig` begin with no zero, times ten to the power of `scale`, is no
/// smaller than the number that `bound` spells just where it lies under a
/// higher power of ten, or under the same with digits that are no smaller.
pub proof fn lemma_compare(sig: Seq<char>, scale: int, bound: Seq<char>)
    requires
        all_digits(sig),
        sig.len() >= 1,
        sig[0] != '0',
        all_digits(bound),
        bound.len() >= 1,
        bound[0] != '0',
    ensures
        at_least(digits_value(sig), scale, digits_value(bound)) == (sig.len() + scale
            > bound.len() || (sig.len() + scale == bound.len() && digits_reach(sig, bound, 0))),
{
    if sig.len() + scale > bound.len() {
        lemma_compare_above(sig, scale, bound);
    } else if sig.len() + scale < bound.len() {
        lemma_compare_below(sig, scale, bound);
    } else {
        lemma_compare_level(sig, scale, bound);
    }
}

/// How many digits the fraction of a number literal has.
pub open spec fn fraction_digits(shape: NumberShape) -> int {
    if shape.frac_len > 0 {
        shape.frac_len - 1
    } else {
        0
    }
}

/// The whole number that the digits of a number literal spell, the point
/// left out.
pub open spec fn literal_mantissa(s: Seq<char>) -> int {
    digits_value(mantissa_digits(s, number_shape(s)->Ok_0))
}

/// The power of ten by which the mantissa of a number literal is to be
/// multiplied: the exponent that it states, less its digits after the
/// point.
pub open spec fn literal_scale(s: Seq<char>) -> int {
    exponent_value(s, number_shape(s)->Ok_0) - fraction_digits(number_shape(s)->Ok_0)
}

/// The number that the digits of [`FINITE_LIMIT`] spell.
pub open spec fn finite_limit() -> int {
    digits_value(FINITE_LIMIT@)
}

/// The limit is written in digits, the first of which is no zero.
pub proof fn lemma_limit_digits()
    ensures
        FINITE_LIMIT@.len() == 309,
        all_digits(FINITE_LIMIT@),
        FINITE_LIMIT@[0] != '0',
{
    reveal_strlit(
        "179769313486231580793728971405303415079934132710037826936173778980444968292764750946649017977587207096330286416692887910946555547851940402630657488671505820681908902000708383676273854845817711531764475730270069855571366959622842914819860834936475292719074168444365510704342711559699508093042880177904174497792",
    );
}

/// The mantissa of a number literal is written in digits: those of the
/// integer part and those of the fraction.
pub proof fn lemma_mantissa_digits(s: Seq<char>)
    requires
        is_json_number(s),
    ensures
        all_digits(mantissa_digits(s, number_shape(s)->Ok_0)),
        mantissa_digits(s, number_shape(s)->Ok_0).len() == number_shape(s)->Ok_0.int_len
            + fraction_digits(number_shape(s)->Ok_0),
{
    let shape = number_shape(s)->Ok_0;
    lemma_number_shape(s);
    let digits = mantissa_digits(s, shape);
    let a = s.skip(shape.sign);
    let m1 = shape.sign + shape.int_len;
    let b = s.skip(m1);
    lemma_digit_count(a.drop_first());
    if shape.frac_len > 0 {
        lemma_digit_count(b.drop_first());
    }
    assert forall|i: int| 0 <= i < digits.len() implies is_digit(#[trigger] digits[i]) by {
        if i < shape.int_len {
            assert(digits[i] == s[shape.sign + i]);
            if i == 0 {
                assert(a[0] == s[shape.sign]);
            } else {
                assert(a.drop_first()[i - 1] == s[shape.sign + i]);
            }
        } else {
            let j = i - shape.int_len;
            assert(digits[i] == s[m1 + 1 + j]);
            assert(b.drop_first()[j] == s[m1 + 1 + j]);
        }
    }
}

/// A number literal is too large for a finite 64-bit binary float just
/// where the number that it states, its mantissa times ten to the power of
/// its scale, is no smaller than the limit.
pub proof fn lemma_exceeds_finite(s: Seq<char>)
    requires
        is_json_number(s),
    ensures
        exceeds_finite(s) == at_least(literal_mantissa(s), literal_scale(s), finite_limit()),
{
    let shape = number_shape(s)->Ok_0;
    let digits = mantissa_digits(s, shape);
    let zeros = leading_zeros(digits);
    let limit = FINITE_LIMIT@;
    let scale = literal_scale(s);
    lemma_mantissa_digits(s);
    lemma_leading_zeros(digits);
    lemma_limit_digits();
    lemma_value_reaches(limit);
    lemma_pow_positive(10, (limit.len() - 1) as nat);
    if zeros == digits.len() {
        lemma_value_zeros(digits);
        if scale < 0 {
            let pq = pow(10, (-scale) as nat);
            lemma_pow_positive(10, (-scale) as nat);
            assert(finite_limit() * pq > 0) by (nonlinear_arith)
                requires
                    finite_limit() > 0,
                    pq > 0,
            ;
        } else {
            assert(0 * pow(10, scale as nat) == 0);
        }
    } else {
        let head = digits.take(zeros);
        let sig = digits.skip(zeros);
        assert(digits =~= head + sig);
        lemma_value_concat(head, sig);
        lemma_value_zeros(head);
        assert(0 * pow(10, sig.len()) == 0);
        assert(all_digits(sig)) by {
            assert forall|i: int| 0 <= i < sig.len() implies is_digit(#[trigger] sig[i]) by {
                assert(sig[i] == digits[zeros + i]);
            }
        }
        assert(sig[0] == digits[zeros]);
        lemma_compare(sig, scale, limit);
    }
}

} // verus!
