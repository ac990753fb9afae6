//! The few operations on `String` and `char` that the standard library has
//! and that the verifier knows nothing of. Their contracts are taken on
//! trust from the standard library's documentation.

use vstd::prelude::*;

verus! {

/// `String::push`: appends `c` to the end of `s`.
#[verifier::external_body]
pub(crate) fn push_char(s: &mut String, c: char)
    ensures
        final(s)@ == old(s)@.push(c),
{
    s.push(c)
}

/// The characters of `s`, in a vector.
pub fn chars_of(s: &str) -> (r: Vec<char>)
    ensures
        r@ == s@,
{
    let mut chars: Vec<char> = Vec::new();
    for c in it: s.chars()
        invariant
            chars@ == it.seq().take(it.index()),
    {
        chars.push(c);
    }
    chars
}

/// The text that `Debug` shows a character as: the character between
/// apostrophes, escaped where it cannot be shown as it is.
pub uninterp spec fn char_debug(c: char) -> Seq<char>;

/// `<char as Debug>::fmt`, through `format!`: the text that `Debug` shows
/// `c` as. What that text is, is left to the standard library; it depends
/// on `c` alone.
#[verifier::external_body]
pub(crate) fn debug_char(c: char) -> (r: String)
    ensures
        r@ == char_debug(c),
{
    format!("{:?}", c)
}

/// The text that `Debug` shows a string as: the string between quotes,
/// escaped where it cannot be shown as it is.
pub uninterp spec fn text_debug(text: Seq<char>) -> Seq<char>;

/// `<str as Debug>::fmt`, through `format!`: the text that `Debug` shows
/// `text` as. What that text is, is left to the standard library; it
/// depends on `text` alone.
#[verifier::external_body]
pub(crate) fn debug_text(text: &str) -> (r: String)
    ensures
        r@ == text_debug(text@),
{
    format!("{:?}", text)
}

/// Whether `code` is a Unicode scalar value: a code point that is no
/// surrogate.
pub open spec fn is_scalar_value(code: int) -> bool {
    (0 <= code && code <= 0xD7FF) || (0xE000 <= code && code <= 0x10FFFF)
}

/// `char::from_u32`: the character with the code `code`, where `code` is a
/// Unicode scalar value, and `None` for every other number.
#[verifier::external_body]
pub(crate) fn char_from_u32(code: u32) -> (r: Option<char>)
    ensures
        is_scalar_value(code as int) ==> r == Some(code as char),
        !is_scalar_value(code as int) ==> r is None,
{
    char::from_u32(code)
}

/// The digits of `n` in base ten, the highest first.
pub open spec fn natural_text(n: nat) -> Seq<char>
    decreases n,
{
    if n < 10 {
        seq![('0' as int + n) as char]
    } else {
        natural_text(n / 10).push(('0' as int + n % 10) as char)
    }
}

/// Appends the digits of `n` in base ten to `s`.
pub fn append_natural(s: &mut String, n: u64)
    ensures
        final(s)@ == old(s)@ + natural_text(n as nat),
    decreases n,
{
    if n >= 10 {
        append_natural(s, n / 10);
    }
    let digit = (48u8 + (n % 10) as u8) as char;
    push_char(s, digit);
    proof {
        if n >= 10 {
            assert(s@ =~= old(s)@ + natural_text((n / 10) as nat).push(digit));
        } else {
            assert(s@ =~= old(s)@ + seq![digit]);
        }
    }
}

/// The upper-case hex digit of the value `n`.
pub open spec fn upper_hex_digit(n: int) -> char {
    if 0 <= n && n <= 9 {
        ('0' as int + n) as char
    } else {
        ('A' as int + n - 10) as char
    }
}

/// The digits of `n` in base sixteen, the highest first, in at least
/// `width` places.
pub open spec fn upper_hex_text(n: nat, width: nat) -> Seq<char>
    decreases n + width,
{
    if n < 16 && width <= 1 {
        seq![upper_hex_digit(n as int)]
    } else if width == 0 {
        upper_hex_text(n / 16, 0).push(upper_hex_digit((n % 16) as int))
    } else {
        upper_hex_text(n / 16, (width - 1) as nat).push(upper_hex_digit((n % 16) as int))
    }
}

/// Appends the digits of `n` in base sixteen to `s`, in at least `width`
/// places.
pub fn append_upper_hex(s: &mut String, n: u32, width: u32)
    ensures
        final(s)@ == old(s)@ + upper_hex_text(n as nat, width as nat),
    decreases n + width,
{
    let low = n % 16;
    let digit = if low < 10 {
        (48u8 + low as u8) as char
    } else {
        (55u8 + low as u8) as char
    };
    if n < 16 && width <= 1 {
        push_char(s, digit);
        assert(s@ =~= old(s)@ + seq![digit]);
    } else {
        let rest: u32 = if width == 0 { 0 } else { width - 1 };
        append_upper_hex(s, n / 16, rest);
        push_char(s, digit);
        assert(s@ =~= old(s)@ + upper_hex_text((n / 16) as nat, rest as nat).push(digit));
    }
}

} // verus!
