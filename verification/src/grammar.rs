//! The lexical grammar, stated over sequences of characters.
//!
//! Everything here is specification: what a number, a string or a keyword
//! is, and which token the scanner owes in each grammar state. The scanner in
//! [`crate::json_tokenizer`] is proved against these definitions.

use vstd::prelude::*;
use crate::json_error::{JsonError, Literal, Symbol};
use crate::json_token::Token;
use crate::state::{ContainerType, State};

verus! {

/// Space, tab, carriage return and line feed separate tokens.
pub open spec fn is_whitespace(c: char) -> bool {
    c == ' ' || c == '\t' || c == '\r' || c == '\n'
}

/// The ten ASCII digits.
pub open spec fn is_digit(c: char) -> bool {
    '0' <= c && c <= '9'
}

/// The characters below U+0020, which no string may hold unescaped.
pub open spec fn is_control(c: char) -> bool {
    c <= '\x1f'
}

/// The value of a hex digit of either case.
pub open spec fn hex_value(c: char) -> Option<int> {
    if '0' <= c && c <= '9' {
        Some(c as int - '0' as int)
    } else if 'a' <= c && c <= 'f' {
        Some(c as int - 'a' as int + 10)
    } else if 'A' <= c && c <= 'F' {
        Some(c as int - 'A' as int + 10)
    } else {
        None
    }
}

/// How many digits `s` begins with.
pub open spec fn digit_count(s: Seq<char>) -> int
    decreases s.len(),
{
    if s.len() > 0 && is_digit(s[0]) {
        1 + digit_count(s.drop_first())
    } else {
        0
    }
}

/// The length of the integer part that `s` begins with: one digit, or a
/// non-zero digit and any number of digits.
pub open spec fn int_part(s: Seq<char>) -> Result<int, JsonError> {
    if s.len() == 0 || !is_digit(s[0]) {
        Err(JsonError::InvalidNumber)
    } else if s[0] == '0' && digit_count(s.drop_first()) > 0 {
        Err(JsonError::LeadingZero)
    } else {
        Ok(1 + digit_count(s.drop_first()))
    }
}

/// The length of the fraction that `s` begins with: nothing, or a point and
/// one or more digits.
pub open spec fn frac_part(s: Seq<char>) -> Result<int, JsonError> {
    if s.len() > 0 && s[0] == '.' {
        if digit_count(s.drop_first()) == 0 {
            Err(JsonError::EmptyFraction)
        } else {
            Ok(1 + digit_count(s.drop_first()))
        }
    } else {
        Ok(0)
    }
}

/// Whether `c` opens an exponent.
pub open spec fn is_exponent_marker(c: char) -> bool {
    c == 'e' || c == 'E'
}

/// Whether `c` is a sign that an exponent may carry.
pub open spec fn is_exponent_sign(c: char) -> bool {
    c == '+' || c == '-'
}

/// The length of the exponent that `s` begins with: nothing, or a marker, an
/// optional sign and one or more digits.
pub open spec fn exp_part(s: Seq<char>) -> Result<int, JsonError> {
    if s.len() > 0 && is_exponent_marker(s[0]) {
        if s.len() == 1 {
            Err(JsonError::UnterminatedExponent)
        } else {
            let sign: int = if is_exponent_sign(s[1]) { 1 } else { 0 };
            if digit_count(s.skip(1 + sign)) == 0 {
                Err(JsonError::EmptyExponent)
            } else {
                Ok(1 + sign + digit_count(s.skip(1 + sign)))
            }
        }
    } else {
        Ok(0)
    }
}

/// The parts of a number literal, each by its length.
pub struct NumberShape {
    /// 1 where the literal begins with a minus sign, else 0.
    pub sign: int,
    /// The digits before the point.
    pub int_len: int,
    /// The point and the digits after it; 0 without a fraction.
    pub frac_len: int,
    /// The marker, the sign and the digits of the exponent; 0 without one.
    pub exp_len: int,
}

impl NumberShape {
    /// The length of the whole literal.
    pub open spec fn len(self) -> int {
        self.sign + self.int_len + self.frac_len + self.exp_len
    }

    /// Where the exponent begins.
    pub open spec fn mantissa_len(self) -> int {
        self.sign + self.int_len + self.frac_len
    }
}

/// The number literal that `s` begins with, read greedily from left to right.
pub open spec fn number_shape(s: Seq<char>) -> Result<NumberShape, JsonError> {
    let sign: int = if s.len() > 0 && s[0] == '-' { 1 } else { 0 };
    match int_part(s.skip(sign)) {
        Err(e) => Err(e),
        Ok(int_len) => match frac_part(s.skip(sign + int_len)) {
            Err(e) => Err(e),
            Ok(frac_len) => match exp_part(s.skip(sign + int_len + frac_len)) {
                Err(e) => Err(e),
                Ok(exp_len) => Ok(NumberShape { sign, int_len, frac_len, exp_len }),
            },
        },
    }
}

/// The text that a number token carries: the literal as it is written.
pub open spec fn number_text(s: Seq<char>, shape: NumberShape) -> Seq<char> {
    s.take(shape.len())
}

/// Scans the number that `s` begins with: its token text and what follows it.
pub open spec fn scan_number(s: Seq<char>) -> Result<(Seq<char>, Seq<char>), JsonError> {
    match number_shape(s) {
        Err(e) => Err(e),
        Ok(shape) => Ok((number_text(s, shape), s.skip(shape.len()))),
    }
}

/// Whether the whole of `s` is one number literal of the grammar.
pub open spec fn is_json_number(s: Seq<char>) -> bool {
    number_shape(s) matches Ok(shape) && shape.len() == s.len()
}

/// The character that a one-letter escape stands for.
pub open spec fn simple_escape(c: char) -> Option<char> {
    if c == 'n' {
        Some('\n')
    } else if c == '\\' {
        Some('\\')
    } else if c == 'b' {
        Some('\x08')
    } else if c == 'f' {
        Some('\x0C')
    } else if c == 'r' {
        Some('\r')
    } else if c == 't' {
        Some('\t')
    } else if c == '"' {
        Some('"')
    } else if c == '/' {
        Some('/')
    } else {
        None
    }
}

/// The number that the first `n` characters of `s` spell in hex. The first
/// place that is missing or no hex digit decides the error.
pub open spec fn hex_prefix(s: Seq<char>, n: nat) -> Result<int, JsonError>
    decreases n,
{
    if n == 0 {
        Ok(0)
    } else {
        match hex_prefix(s, (n - 1) as nat) {
            Err(e) => Err(e),
            Ok(high) => if s.len() < n {
                Err(JsonError::UnterminatedUnicodeEscape)
            } else {
                match hex_value(s[n - 1]) {
                    None => Err(JsonError::InvalidUnicodeEscape(s[n - 1])),
                    Some(low) => Ok(high * 16 + low),
                }
            },
        }
    }
}

/// Whether `code` is a surrogate code unit.
pub open spec fn is_surrogate(code: int) -> bool {
    0xD800 <= code && code <= 0xDFFF
}

/// The one character that a code unit gives: the character with that code,
/// or, for a surrogate, which is the code of no character, the replacement
/// character U+FFFD.
pub open spec fn unit_char(code: int) -> char {
    if is_surrogate(code) {
        '\u{FFFD}'
    } else {
        code as char
    }
}

/// Reads the escape that follows a backslash: the character it stands for and
/// how many characters of `s` spell it. A `\u` escape yields one character
/// for the code unit that its four hex digits name; two escapes that name
/// a pair of surrogates are not joined.
pub open spec fn scan_escape(s: Seq<char>) -> Result<(char, int), JsonError> {
    if s.len() == 0 {
        Err(JsonError::UnterminatedEscape)
    } else if s[0] == 'u' {
        match hex_prefix(s.drop_first(), 4) {
            Err(e) => Err(e),
            Ok(code) => Ok((unit_char(code), 5)),
        }
    } else {
        match simple_escape(s[0]) {
            Some(c) => Ok((c, 1)),
            None => Err(JsonError::InvalidEscape(s[0])),
        }
    }
}

/// Puts `c` in front of the text of a scanned string.
pub open spec fn prepend(c: char, r: Result<(Seq<char>, Seq<char>), JsonError>) -> Result<
    (Seq<char>, Seq<char>),
    JsonError,
> {
    match r {
        Ok((text, rest)) => Ok((seq![c] + text, rest)),
        Err(e) => Err(e),
    }
}

/// Scans a string whose opening quote has been read: its decoded text and
/// what follows the closing quote.
pub open spec fn scan_string(s: Seq<char>) -> Result<(Seq<char>, Seq<char>), JsonError>
    decreases s.len(),
{
    if s.len() == 0 {
        Err(JsonError::UnterminatedString)
    } else if is_control(s[0]) {
        Err(JsonError::InvalidStringCharacter(s[0]))
    } else if s[0] == '"' {
        Ok((Seq::empty(), s.drop_first()))
    } else if s[0] == '\\' {
        match scan_escape(s.drop_first()) {
            Err(e) => Err(e),
            Ok((c, n)) => if 1 + n <= s.len() {
                prepend(c, scan_string(s.skip(1 + n)))
            } else {
                Err(JsonError::UnterminatedEscape)
            },
        }
    } else {
        prepend(s[0], scan_string(s.drop_first()))
    }
}

impl Literal {
    /// The token that the keyword yields.
    pub open spec fn token(self) -> Token {
        match self {
            Literal::Null => Token::Null,
            Literal::True => Token::True,
            Literal::False => Token::False,
        }
    }

    /// The name under which a misplaced keyword is reported.
    pub open spec fn symbol(self) -> Symbol {
        match self {
            Literal::Null => Symbol::NullLiteral,
            Literal::True => Symbol::TrueLiteral,
            Literal::False => Symbol::FalseLiteral,
        }
    }
}

/// Matches `s` against `tail`, the letters of a keyword after its first:
/// what follows the keyword, or why `s` does not spell it. The text may end
/// too early, or depart from the keyword.
pub open spec fn scan_literal(s: Seq<char>, tail: Seq<char>, which: Literal) -> Result<
    Seq<char>,
    JsonError,
> {
    if tail.is_prefix_of(s) {
        Ok(s.skip(tail.len() as int))
    } else if s.is_prefix_of(tail) {
        Err(JsonError::UnterminatedLiteral(which))
    } else {
        Err(JsonError::InvalidLiteral(which))
    }
}

/// The scanner as a value: its grammar state, the open containers from the
/// outermost to the innermost, and the text not yet read.
pub struct Lexer {
    pub state: State,
    pub stack: Seq<ContainerType>,
    pub input: Seq<char>,
}

impl Lexer {
    /// The scanner before the first character of `text`.
    pub open spec fn start(text: Seq<char>) -> Lexer {
        Lexer { state: State::StartOfDocument, stack: seq![ContainerType::Document], input: text }
    }

    /// The document is the outermost container and no other one, and the
    /// state belongs to the innermost container.
    pub open spec fn wf(self) -> bool {
        &&& self.stack.len() >= 1
        &&& self.stack[0] == ContainerType::Document
        &&& forall|i: int| 1 <= i < self.stack.len() ==> self.stack[i] != ContainerType::Document
        &&& self.state.container() == self.stack.last()
    }

    /// The same scanner further on in the text.
    pub open spec fn at(self, state: State, input: Seq<char>) -> Lexer {
        Lexer { state, stack: self.stack, input }
    }

    /// The scanner after a simple value that ends before `rest`.
    pub open spec fn value_read(self, token: Token, symbol: Symbol, rest: Seq<char>) -> Result<
        (Token, Lexer),
        JsonError,
    > {
        if self.state.accepts_value() {
            Ok((token, self.at(self.state.after_value(), rest)))
        } else {
            Err(JsonError::InvalidState(symbol, self.state))
        }
    }

    /// The scanner after a keyword whose first letter has been read.
    pub open spec fn literal_read(self, which: Literal, rest: Seq<char>) -> Result<
        (Token, Lexer),
        JsonError,
    > {
        match scan_literal(rest, which.text().drop_first(), which) {
            Err(e) => Err(e),
            Ok(after) => self.value_read(which.token(), which.symbol(), after),
        }
    }

    /// The scanner inside a container of kind `kind` that opens before `rest`.
    pub open spec fn opened(self, kind: ContainerType, rest: Seq<char>) -> Lexer {
        Lexer {
            state: if kind == ContainerType::Object {
                State::ObjectStart
            } else {
                State::ArrayStart
            },
            stack: self.stack.push(kind),
            input: rest,
        }
    }

    /// The scanner after the innermost container has closed before `rest`.
    pub open spec fn closed(self, rest: Seq<char>) -> Lexer {
        Lexer {
            state: State::after_close(self.stack.drop_last().last()),
            stack: self.stack.drop_last(),
            input: rest,
        }
    }

    /// The next token and the scanner after it, or the error that the text
    /// holds at this place. Whitespace is skipped; a colon or a comma moves
    /// the state on and yields no token.
    pub open spec fn scan(self) -> Result<(Token, Lexer), JsonError> {
        if self.state == State::ReaderExhausted {
            Err(JsonError::NextAfterEndOfDocument)
        } else {
            self.scan_from()
        }
    }

    /// [`Lexer::scan`] in a state other than the terminal one.
    pub open spec fn scan_from(self) -> Result<(Token, Lexer), JsonError>
        decreases self.input.len(),
    {
        if self.input.len() == 0 {
            if self.state == State::ExpectedEndOfDocument {
                Ok((Token::EndDocument, self.at(State::ReaderExhausted, self.input)))
            } else {
                Err(JsonError::UnexpectedEndOfDocument(self.state))
            }
        } else {
            let c = self.input[0];
            let rest = self.input.drop_first();
            if is_whitespace(c) {
                self.at(self.state, rest).scan_from()
            } else if c == ':' {
                if self.state == State::ObjectBeforeColon {
                    self.at(State::ObjectAfterColon, rest).scan_from()
                } else {
                    Err(JsonError::InvalidState(Symbol::Colon, self.state))
                }
            } else if c == ',' {
                if self.state == State::ObjectAfterProperty {
                    self.at(State::ObjectAfterComma, rest).scan_from()
                } else if self.state == State::ArrayAfterValue {
                    self.at(State::ArrayAfterComma, rest).scan_from()
                } else {
                    Err(JsonError::InvalidState(Symbol::Comma, self.state))
                }
            } else if c == '"' {
                match scan_string(rest) {
                    Err(e) => Err(e),
                    Ok((text, after)) => if self.state == State::ObjectStart || self.state
                        == State::ObjectAfterComma {
                        Ok((Token::Name(text), self.at(State::ObjectBeforeColon, after)))
                    } else {
                        self.value_read(Token::StringValue(text), Symbol::DoubleQuote, after)
                    },
                }
            } else if c == '{' {
                if self.state.accepts_value() {
                    Ok((Token::StartObject, self.opened(ContainerType::Object, rest)))
                } else {
                    Err(JsonError::InvalidState(Symbol::OpenBrace, self.state))
                }
            } else if c == '}' {
                if self.state == State::ObjectAfterProperty || self.state == State::ObjectStart {
                    Ok((Token::EndObject, self.closed(rest)))
                } else {
                    Err(JsonError::InvalidState(Symbol::CloseBrace, self.state))
                }
            } else if c == '[' {
                if self.state.accepts_value() {
                    Ok((Token::StartArray, self.opened(ContainerType::Array, rest)))
                } else {
                    Err(JsonError::InvalidState(Symbol::OpenBracket, self.state))
                }
            } else if c == ']' {
                if self.state == State::ArrayAfterValue || self.state == State::ArrayStart {
                    Ok((Token::EndArray, self.closed(rest)))
                } else {
                    Err(JsonError::InvalidState(Symbol::CloseBracket, self.state))
                }
            } else if c == 'n' {
                self.literal_read(Literal::Null, rest)
            } else if c == 't' {
                self.literal_read(Literal::True, rest)
            } else if c == 'f' {
                self.literal_read(Literal::False, rest)
            } else if c == '-' || is_digit(c) {
                match scan_number(self.input) {
                    Err(e) => Err(e),
                    Ok((text, after)) => self.value_read(
                        Token::Number(text),
                        Symbol::Number,
                        after,
                    ),
                }
            } else {
                Err(JsonError::InvalidFirstCharacter(c))
            }
        }
    }
}

impl Lexer {
    /// What bounds the tokens still to come: the characters not yet read,
    /// and one for the end of the document.
    pub open spec fn measure(self) -> nat {
        if self.state == State::ReaderExhausted {
            self.input.len()
        } else {
            self.input.len() + 1
        }
    }
}

/// The digits that `s` begins with are digits, and what follows them is none.
pub proof fn lemma_digit_count(s: Seq<char>)
    ensures
        0 <= digit_count(s) <= s.len(),
        forall|i: int| 0 <= i < digit_count(s) ==> is_digit(#[trigger] s[i]),
        digit_count(s) < s.len() ==> !is_digit(s[digit_count(s)]),
    decreases s.len(),
{
    if s.len() > 0 && is_digit(s[0]) {
        let t = s.drop_first();
        lemma_digit_count(t);
        assert forall|i: int| 0 <= i < digit_count(s) implies is_digit(#[trigger] s[i]) by {
            if i > 0 {
                assert(s[i] == t[i - 1]);
            }
        }
        if digit_count(s) < s.len() {
            assert(s[digit_count(s)] == t[digit_count(t)]);
        }
    }
}

/// A number literal has at least one character and lies within the text.
pub proof fn lemma_number_shape(s: Seq<char>)
    ensures
        number_shape(s) matches Ok(shape) ==> {
            &&& 0 <= shape.sign <= 1
            &&& 1 <= shape.int_len
            &&& 0 <= shape.frac_len
            &&& 0 <= shape.exp_len
            &&& shape.len() <= s.len()
        },
{
    let sign: int = if s.len() > 0 && s[0] == '-' { 1 } else { 0 };
    let a = s.skip(sign);
    if let Ok(int_len) = int_part(a) {
        lemma_digit_count(a.drop_first());
        assert(int_len <= a.len());
        let b = s.skip(sign + int_len);
        assert(b.len() == s.len() - sign - int_len);
        if let Ok(frac_len) = frac_part(b) {
            if b.len() > 0 && b[0] == '.' {
                lemma_digit_count(b.drop_first());
                assert(b.drop_first().len() == b.len() - 1);
            }
            assert(0 <= frac_len <= b.len());
            let c = s.skip(sign + int_len + frac_len);
            assert(c.len() == b.len() - frac_len);
            if let Ok(exp_len) = exp_part(c) {
                if c.len() > 0 && is_exponent_marker(c[0]) {
                    let k: int = if is_exponent_sign(c[1]) { 1 } else { 0 };
                    lemma_digit_count(c.skip(1 + k));
                    assert(c.skip(1 + k).len() == c.len() - 1 - k);
                    assert(exp_len <= c.len());
                }
            }
        }
    }
}

/// A scanned string leaves less text than it found.
pub proof fn lemma_scan_string_rest(s: Seq<char>)
    ensures
        scan_string(s) matches Ok((text, rest)) ==> rest.len() < s.len(),
    decreases s.len(),
{
    if s.len() > 0 && !is_control(s[0]) && s[0] != '"' {
        if s[0] == '\\' {
            if let Ok((c, n)) = scan_escape(s.drop_first()) {
                if 1 + n <= s.len() {
                    lemma_scan_string_rest(s.skip(1 + n));
                }
            }
        } else {
            lemma_scan_string_rest(s.drop_first());
        }
    }
}

/// What holds of every token that the scanner yields, by the kind of the
/// token: the scanner stays well formed, it has come nearer to the end, an
/// opening token has pushed its container, a closing token has popped it,
/// and after a complete value the state is the one that follows a value in
/// the innermost open container.
pub proof fn lemma_scan(lexer: Lexer)
    requires
        lexer.wf(),
    ensures
        lexer.scan() matches Ok((token, after)) ==> {
            &&& after.wf()
            &&& after.measure() < lexer.measure()
            &&& match token {
                Token::StartObject => after.stack == lexer.stack.push(ContainerType::Object)
                    && after.state == State::ObjectStart,
                Token::StartArray => after.stack == lexer.stack.push(ContainerType::Array)
                    && after.state == State::ArrayStart,
                Token::EndObject => lexer.stack.len() >= 2 && lexer.stack.last()
                    == ContainerType::Object && after.stack == lexer.stack.drop_last()
                    && after.state == State::after_close(after.stack.last()),
                Token::EndArray => lexer.stack.len() >= 2 && lexer.stack.last()
                    == ContainerType::Array && after.stack == lexer.stack.drop_last()
                    && after.state == State::after_close(after.stack.last()),
                Token::Name(_) => after.stack == lexer.stack && after.state
                    == State::ObjectBeforeColon,
                Token::EndDocument => after.stack == lexer.stack && after.state
                    == State::ReaderExhausted,
                _ => after.stack == lexer.stack && after.state == State::after_close(
                    after.stack.last(),
                ),
            }
        },
{
    if lexer.state != State::ReaderExhausted {
        lemma_scan_from(lexer);
    }
}

/// [`lemma_scan`] for a scanner that has not reported the end of the text.
proof fn lemma_scan_from(lexer: Lexer)
    requires
        lexer.wf(),
        lexer.state != State::ReaderExhausted,
    ensures
        lexer.scan_from() matches Ok((token, after)) ==> {
            &&& after.wf()
            &&& after.measure() < lexer.measure()
            &&& match token {
                Token::StartObject => after.stack == lexer.stack.push(ContainerType::Object)
                    && after.state == State::ObjectStart,
                Token::StartArray => after.stack == lexer.stack.push(ContainerType::Array)
                    && after.state == State::ArrayStart,
                Token::EndObject => lexer.stack.len() >= 2 && lexer.stack.last()
                    == ContainerType::Object && after.stack == lexer.stack.drop_last()
                    && after.state == State::after_close(after.stack.last()),
                Token::EndArray => lexer.stack.len() >= 2 && lexer.stack.last()
                    == ContainerType::Array && after.stack == lexer.stack.drop_last()
                    && after.state == State::after_close(after.stack.last()),
                Token::Name(_) => after.stack == lexer.stack && after.state
                    == State::ObjectBeforeColon,
                Token::EndDocument => after.stack == lexer.stack && after.state
                    == State::ReaderExhausted,
                _ => after.stack == lexer.stack && after.state == State::after_close(
                    after.stack.last(),
                ),
            }
        },
    decreases lexer.input.len(),
{
    if lexer.input.len() > 0 {
        let c = lexer.input[0];
        let rest = lexer.input.drop_first();
        if is_whitespace(c) {
            lemma_scan_from(lexer.at(lexer.state, rest));
        } else if c == ':' {
            if lexer.state == State::ObjectBeforeColon {
                lemma_scan_from(lexer.at(State::ObjectAfterColon, rest));
            }
        } else if c == ',' {
            if lexer.state == State::ObjectAfterProperty {
                lemma_scan_from(lexer.at(State::ObjectAfterComma, rest));
            } else if lexer.state == State::ArrayAfterValue {
                lemma_scan_from(lexer.at(State::ArrayAfterComma, rest));
            }
        } else if c == '"' {
            lemma_scan_string_rest(rest);
        } else if c == '{' || c == '[' {
        } else if c == '}' || c == ']' {
        } else if c == '-' || is_digit(c) {
            lemma_number_shape(lexer.input);
        }
    }
}

impl Token {
    /// Whether the token begins a value: a simple value, or the start of an
    /// object or of an array.
    pub open spec fn begins_value(self) -> bool {
        !(self is EndObject || self is EndArray || self is Name || self is EndDocument)
    }
}

impl State {
    /// The states in which a value must follow: after a property name or
    /// its colon, after a comma in an array, and at the start of the
    /// document. At the start of an array the array may end instead.
    pub open spec fn awaits_value(self) -> bool {
        self == State::ObjectBeforeColon || self == State::ObjectAfterColon || self
            == State::ArrayAfterComma || self == State::StartOfDocument
    }
}

/// Where a value is due, the next token begins one.
pub proof fn lemma_scan_value(lexer: Lexer)
    requires
        lexer.state.awaits_value(),
    ensures
        lexer.scan() matches Ok((token, after)) ==> token.begins_value(),
    decreases lexer.input.len(),
{
    if lexer.input.len() > 0 {
        let c = lexer.input[0];
        let rest = lexer.input.drop_first();
        if is_whitespace(c) {
            lemma_scan_value(lexer.at(lexer.state, rest));
        } else if c == ':' {
            if lexer.state == State::ObjectBeforeColon {
                lemma_scan_value(lexer.at(State::ObjectAfterColon, rest));
            }
        } else if c == 'n' {
            assert(Literal::Null.token().begins_value());
        } else if c == 't' {
            assert(Literal::True.token().begins_value());
        } else if c == 'f' {
            assert(Literal::False.token().begins_value());
        }
    }
}

/// After the comma that follows a property, the next token is a name.
pub proof fn lemma_scan_after_comma(lexer: Lexer)
    requires
        lexer.state == State::ObjectAfterComma,
    ensures
        lexer.scan() matches Ok((token, after)) ==> token is Name,
    decreases lexer.input.len(),
{
    if lexer.input.len() > 0 {
        let c = lexer.input[0];
        let rest = lexer.input.drop_first();
        if is_whitespace(c) {
            lemma_scan_after_comma(lexer.at(lexer.state, rest));
        }
    }
}

/// After a property, the next token is the name of the next property or
/// the end of the object.
pub proof fn lemma_scan_after_property(lexer: Lexer)
    requires
        lexer.state == State::ObjectAfterProperty,
    ensures
        lexer.scan() matches Ok((token, after)) ==> token is Name || token is EndObject,
    decreases lexer.input.len(),
{
    if lexer.input.len() > 0 {
        let c = lexer.input[0];
        let rest = lexer.input.drop_first();
        if is_whitespace(c) {
            lemma_scan_after_property(lexer.at(lexer.state, rest));
        } else if c == ',' {
            lemma_scan_after_comma(lexer.at(State::ObjectAfterComma, rest));
        }
    }
}

/// A text that begins with `n` digits and goes on with something else, or
/// ends there, begins with just `n` digits.
pub proof fn lemma_digit_count_is(s: Seq<char>, n: int)
    requires
        0 <= n <= s.len(),
        forall|i: int| 0 <= i < n ==> is_digit(#[trigger] s[i]),
        n < s.len() ==> !is_digit(s[n]),
    ensures
        digit_count(s) == n,
    decreases n,
{
    if n > 0 {
        let t = s.drop_first();
        assert forall|i: int| 0 <= i < n - 1 implies is_digit(#[trigger] t[i]) by {
            assert(t[i] == s[i + 1]);
        }
        if n - 1 < t.len() {
            assert(t[n - 1] == s[n]);
        }
        lemma_digit_count_is(t, n - 1);
    }
}

/// Whether `u` holds the characters of `s` from place `at` on, in its own
/// places from 0 on, up to `n` of them.
spec fn agrees(u: Seq<char>, s: Seq<char>, n: int) -> bool {
    &&& n <= u.len()
    &&& n <= s.len()
    &&& forall|i: int| 0 <= i < n ==> #[trigger] u[i] == s[i]
}

/// A text that begins like one with an integer part, and ends with it or
/// goes on with no digit, has the same integer part.
proof fn lemma_int_part_same(x: Seq<char>, y: Seq<char>, n: int)
    requires
        int_part(x) == Ok::<int, JsonError>(n),
        agrees(y, x, n),
        y.len() == n || !is_digit(y[n]),
    ensures
        int_part(y) == Ok::<int, JsonError>(n),
{
    lemma_digit_count(x.drop_first());
    assert(y[0] == x[0]);
    let t = y.drop_first();
    assert forall|i: int| 0 <= i < n - 1 implies is_digit(#[trigger] t[i]) by {
        assert(t[i] == y[i + 1]);
        assert(x.drop_first()[i] == x[i + 1]);
    }
    if n - 1 < t.len() {
        assert(t[n - 1] == y[n]);
    }
    lemma_digit_count_is(t, n - 1);
}

/// A text that begins like one with a fraction, and ends with it or goes
/// on with no digit, has the same fraction; one that begins with no point
/// has none.
proof fn lemma_frac_part_same(x: Seq<char>, y: Seq<char>, n: int)
    requires
        frac_part(x) == Ok::<int, JsonError>(n),
        n > 0 ==> agrees(y, x, n) && (y.len() == n || !is_digit(y[n])),
        n == 0 ==> y.len() == 0 || y[0] != '.',
    ensures
        frac_part(y) == Ok::<int, JsonError>(n),
{
    lemma_digit_count(x.drop_first());
    if n > 0 {
        assert(y[0] == x[0]);
        let t = y.drop_first();
        assert forall|i: int| 0 <= i < n - 1 implies is_digit(#[trigger] t[i]) by {
            assert(t[i] == y[i + 1]);
            assert(x.drop_first()[i] == x[i + 1]);
        }
        if n - 1 < t.len() {
            assert(t[n - 1] == y[n]);
        }
        lemma_digit_count_is(t, n - 1);
    }
}

/// A text that begins with a marker and goes on like one with an
/// exponent, and ends with it or goes on with no digit, has the same
/// exponent; one that begins with no marker has none.
proof fn lemma_exp_part_same(x: Seq<char>, y: Seq<char>, n: int)
    requires
        exp_part(x) == Ok::<int, JsonError>(n),
        n > 0 ==> y.len() >= n && is_exponent_marker(y[0]) && (forall|i: int|
            1 <= i < n ==> #[trigger] y[i] == x[i]) && (y.len() == n || !is_digit(y[n])),
        n == 0 ==> y.len() == 0 || !is_exponent_marker(y[0]),
    ensures
        exp_part(y) == Ok::<int, JsonError>(n),
{
    lemma_digit_count(x.skip(1));
    lemma_digit_count(x.skip(2));
    if n > 0 {
        let k: int = if is_exponent_sign(x[1]) { 1 } else { 0 };
        let d = x.skip(1 + k);
        assert(n == 1 + k + digit_count(d));
        assert(y[1] == x[1]);
        let t = y.skip(1 + k);
        assert forall|i: int| 0 <= i < n - 1 - k implies is_digit(#[trigger] t[i]) by {
            assert(t[i] == y[1 + k + i]);
            assert(d[i] == x[1 + k + i]);
        }
        if n - 1 - k < t.len() {
            assert(t[n - 1 - k] == y[n]);
        }
        lemma_digit_count_is(t, n - 1 - k);
    }
}

/// The text of a number token is itself a number of the grammar, whole:
/// a number token always carries a valid number.
pub proof fn lemma_number_text_is_number(s: Seq<char>)
    ensures
        scan_number(s) matches Ok((text, rest)) ==> is_json_number(text),
{
    if let Ok(shape) = number_shape(s) {
        lemma_number_shape(s);
        let u = number_text(s, shape);
        let sign = shape.sign;
        let m1 = sign + shape.int_len;
        let m2 = m1 + shape.frac_len;
        let len = shape.len();
        let a = s.skip(sign);
        let b = s.skip(m1);
        let c = s.skip(m2);
        let ua = u.skip(sign);
        let ub = u.skip(m1);
        let uc = u.skip(m2);
        assert(u.len() == len);
        assert(u[0] == s[0]);
        assert(agrees(ua, a, shape.int_len)) by {
            assert forall|i: int| 0 <= i < shape.int_len implies #[trigger] ua[i] == a[i] by {
                assert(ua[i] == u[sign + i]);
                assert(a[i] == s[sign + i]);
            }
        }
        assert(ua.len() == shape.int_len || !is_digit(ua[shape.int_len])) by {
            if m1 < len {
                assert(ua[shape.int_len] == u[m1]);
                if shape.frac_len > 0 {
                    assert(b[0] == s[m1]);
                } else {
                    assert(c[0] == s[m2]);
                }
            }
        }
        lemma_int_part_same(a, ua, shape.int_len);
        if shape.frac_len > 0 {
            assert(agrees(ub, b, shape.frac_len)) by {
                assert forall|i: int| 0 <= i < shape.frac_len implies #[trigger] ub[i]
                    == b[i] by {
                    assert(ub[i] == u[m1 + i]);
                    assert(b[i] == s[m1 + i]);
                }
            }
            if m2 < len {
                assert(ub[shape.frac_len] == u[m2]);
                assert(c[0] == s[m2]);
            }
        } else if m1 < len {
            assert(ub[0] == u[m1]);
            assert(c[0] == s[m2]);
        }
        lemma_frac_part_same(b, ub, shape.frac_len);
        if shape.exp_len > 0 {
            assert(uc.len() == shape.exp_len);
            assert(uc[0] == u[m2]);
            assert forall|i: int| 1 <= i < shape.exp_len implies #[trigger] uc[i] == c[i] by {
                assert(uc[i] == u[m2 + i]);
                assert(c[i] == s[m2 + i]);
            }
        }
        lemma_exp_part_same(c, uc, shape.exp_len);
        assert(number_shape(u) == Ok::<NumberShape, JsonError>(shape));
    }
}

/// Whether a number that ends before `rest` ends there for the scanner
/// too: `rest` begins with nothing that a number could go on with.
pub open spec fn ends_number(rest: Seq<char>) -> bool {
    rest.len() == 0 || !(is_digit(rest[0]) || rest[0] == '.' || is_exponent_marker(rest[0]))
}

/// A number of the grammar, followed by text that ends it, is read as the
/// same number.
pub proof fn lemma_number_shape_extends(t: Seq<char>, rest: Seq<char>)
    requires
        is_json_number(t),
        ends_number(rest),
    ensures
        number_shape(t + rest) == number_shape(t),
        scan_number(t + rest) == Ok::<(Seq<char>, Seq<char>), JsonError>((t, rest)),
{
    let shape = number_shape(t)->Ok_0;
    lemma_number_shape(t);
    let u = t + rest;
    let sign = shape.sign;
    let m1 = sign + shape.int_len;
    let m2 = m1 + shape.frac_len;
    let len = shape.len();
    let a = t.skip(sign);
    let b = t.skip(m1);
    let c = t.skip(m2);
    let ua = u.skip(sign);
    let ub = u.skip(m1);
    let uc = u.skip(m2);
    assert(u[0] == t[0]);
    assert(agrees(ua, a, shape.int_len)) by {
        assert forall|i: int| 0 <= i < shape.int_len implies #[trigger] ua[i] == a[i] by {
            assert(ua[i] == u[sign + i]);
            assert(a[i] == t[sign + i]);
        }
    }
    assert(ua.len() == shape.int_len || !is_digit(ua[shape.int_len])) by {
        if m1 < u.len() {
            assert(ua[shape.int_len] == u[m1]);
            if m1 < len {
                if shape.frac_len > 0 {
                    assert(b[0] == t[m1]);
                } else {
                    assert(c[0] == t[m2]);
                }
            } else {
                assert(u[m1] == rest[0]);
            }
        }
    }
    lemma_int_part_same(a, ua, shape.int_len);
    if shape.frac_len > 0 {
        assert(agrees(ub, b, shape.frac_len)) by {
            assert forall|i: int| 0 <= i < shape.frac_len implies #[trigger] ub[i] == b[i] by {
                assert(ub[i] == u[m1 + i]);
                assert(b[i] == t[m1 + i]);
            }
        }
        if m2 < u.len() {
            assert(ub[shape.frac_len] == u[m2]);
            if m2 < len {
                assert(c[0] == t[m2]);
            } else {
                assert(u[m2] == rest[0]);
            }
        }
    } else if m1 < u.len() {
        assert(ub[0] == u[m1]);
        if m1 < len {
            assert(c[0] == t[m2]);
        } else {
            assert(u[m1] == rest[0]);
        }
    }
    lemma_frac_part_same(b, ub, shape.frac_len);
    if shape.exp_len > 0 {
        assert(uc[0] == u[m2]);
        assert(c[0] == t[m2]);
        assert forall|i: int| 1 <= i < shape.exp_len implies #[trigger] uc[i] == c[i] by {
            assert(uc[i] == u[m2 + i]);
            assert(c[i] == t[m2 + i]);
        }
        if len < u.len() {
            assert(uc[shape.exp_len] == u[len]);
            assert(u[len] == rest[0]);
        }
    } else if m2 < u.len() {
        assert(uc[0] == u[m2]);
        assert(u[m2] == rest[0]);
    }
    lemma_exp_part_same(c, uc, shape.exp_len);
    assert(number_shape(u) == Ok::<NumberShape, JsonError>(shape));
    assert(number_text(u, shape) =~= t);
    assert(u.skip(len) =~= rest);
}

/// Every number token that the scanner yields carries a number of the
/// grammar.
pub proof fn lemma_scan_number_token(lexer: Lexer)
    ensures
        lexer.scan() matches Ok((token, after)) ==> (token matches Token::Number(text)
            ==> is_json_number(text)),
    decreases lexer.input.len(),
{
    if lexer.state != State::ReaderExhausted && lexer.input.len() > 0 {
        let c = lexer.input[0];
        let rest = lexer.input.drop_first();
        if is_whitespace(c) {
            lemma_scan_number_token(lexer.at(lexer.state, rest));
        } else if c == ':' {
            if lexer.state == State::ObjectBeforeColon {
                lemma_scan_number_token(lexer.at(State::ObjectAfterColon, rest));
            }
        } else if c == ',' {
            if lexer.state == State::ObjectAfterProperty {
                lemma_scan_number_token(lexer.at(State::ObjectAfterComma, rest));
            } else if lexer.state == State::ArrayAfterValue {
                lemma_scan_number_token(lexer.at(State::ArrayAfterComma, rest));
            }
        } else if c == 'n' {
            assert(!(Literal::Null.token() is Number));
        } else if c == 't' {
            assert(!(Literal::True.token() is Number));
        } else if c == 'f' {
            assert(!(Literal::False.token() is Number));
        } else if c == '-' || is_digit(c) {
            lemma_number_text_is_number(lexer.input);
        }
    }
}

} // verus!
