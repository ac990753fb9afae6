//! Why scanning or tree building failed.

use vstd::prelude::*;
use vstd::string::StringExecFns;
use crate::json_token::{JsonToken, Token};
use crate::state::State;
use crate::text::{
    append_natural, append_upper_hex, char_debug, debug_char, debug_text, natural_text,
    text_debug, upper_hex_text,
};

verus! {

/// One of the three keywords of the grammar.
#[derive(Clone, Copy, Debug, PartialEq, Eq, Structural)]
pub enum Literal {
    Null,
    True,
    False,
}

impl Literal {
    /// The keyword as it is written.
    pub open spec fn text(self) -> Seq<char> {
        match self {
            Literal::Null => seq!['n', 'u', 'l', 'l'],
            Literal::True => seq!['t', 'r', 'u', 'e'],
            Literal::False => seq!['f', 'a', 'l', 's', 'e'],
        }
    }

    /// The keyword as it is written.
    pub fn keyword(self) -> (r: &'static str)
        ensures
            r@ == self.text(),
    {
        proof {
            reveal_strlit("null");
            reveal_strlit("true");
            reveal_strlit("false");
        }
        match self {
            Literal::Null => {
                assert("null"@ =~= seq!['n', 'u', 'l', 'l']);
                "null"
            },
            Literal::True => {
                assert("true"@ =~= seq!['t', 'r', 'u', 'e']);
                "true"
            },
            Literal::False => {
                assert("false"@ =~= seq!['f', 'a', 'l', 's', 'e']);
                "false"
            },
        }
    }
}

/// What the scanner was reading when it found the grammar state unfit for it.
#[derive(Clone, Copy, Debug, PartialEq, Eq, Structural)]
pub enum Symbol {
    Colon,
    Comma,
    DoubleQuote,
    OpenBrace,
    CloseBrace,
    OpenBracket,
    CloseBracket,
    NullLiteral,
    TrueLiteral,
    FalseLiteral,
    Number,
}

/// A token without its text.
#[derive(Clone, Copy, Debug, PartialEq, Eq, Structural)]
pub enum TokenKind {
    Null,
    False,
    True,
    StringValue,
    Number,
    Name,
    StartObject,
    EndObject,
    StartArray,
    EndArray,
    EndDocument,
}

/// Every way in which reading JSON text can fail. An error ends the parse:
/// nothing is repaired and no partial tree is handed out.
#[derive(Debug, PartialEq)]
pub enum JsonError {
    /// A token cannot begin with this character.
    InvalidFirstCharacter(char),
    /// The text ended inside a string.
    UnterminatedString,
    /// A control character (below U+0020) stands unescaped in a string.
    InvalidStringCharacter(char),
    /// The text ended right after a backslash.
    UnterminatedEscape,
    /// This character cannot follow a backslash.
    InvalidEscape(char),
    /// The text ended before the four hex digits of a `\u` escape.
    UnterminatedUnicodeEscape,
    /// This character stands where a `\u` escape needs a hex digit.
    InvalidUnicodeEscape(char),
    /// The text ended inside a keyword.
    UnterminatedLiteral(Literal),
    /// The text departs from the keyword it began.
    InvalidLiteral(Literal),
    /// A number has no digit where its integer part must begin.
    InvalidNumber,
    /// Digits follow a leading zero.
    LeadingZero,
    /// No digit follows the decimal point.
    EmptyFraction,
    /// The text ended right after the exponent marker.
    UnterminatedExponent,
    /// No digit follows the exponent marker and its sign.
    EmptyExponent,
    /// The grammar does not allow this symbol in this state.
    InvalidState(Symbol, State),
    /// The text ended in a state other than the one after the document's value.
    UnexpectedEndOfDocument(State),
    /// A token was asked for after the end of the document had been reported.
    NextAfterEndOfDocument,
    /// A token was pushed back while another one was still buffered.
    TokenAlreadyBuffered,
    /// A character was pushed back while another one was still buffered.
    CharacterAlreadyBuffered,
    /// The document does not begin with an object.
    ExpectedObject,
    /// Something other than the end of the text follows the object.
    ExpectedEndAfterObject,
    /// An object is nested deeper than this limit.
    DepthExceeded(usize),
    /// This token stands where a property name or the end of the object must.
    UnexpectedToken(JsonToken),
    /// This token is not a simple value.
    NotAScalar(JsonToken),
    /// This text of a number token is neither an integer nor a number of the grammar.
    InvalidNumberText(String),
    /// The number is too large in magnitude for a finite 64-bit binary float.
    SpecialValue,
}

/// A failure over sequences of characters: what a [`JsonError`] holds.
pub enum Failure {
    InvalidFirstCharacter(char),
    UnterminatedString,
    InvalidStringCharacter(char),
    UnterminatedEscape,
    InvalidEscape(char),
    UnterminatedUnicodeEscape,
    InvalidUnicodeEscape(char),
    UnterminatedLiteral(Literal),
    InvalidLiteral(Literal),
    InvalidNumber,
    LeadingZero,
    EmptyFraction,
    UnterminatedExponent,
    EmptyExponent,
    InvalidState(Symbol, State),
    UnexpectedEndOfDocument(State),
    NextAfterEndOfDocument,
    TokenAlreadyBuffered,
    CharacterAlreadyBuffered,
    ExpectedObject,
    ExpectedEndAfterObject,
    DepthExceeded(usize),
    UnexpectedToken(Token),
    NotAScalar(Token),
    InvalidNumberText(Seq<char>),
    SpecialValue,
}

impl View for JsonError {
    type V = Failure;

    open spec fn view(&self) -> Failure {
        match self {
            JsonError::InvalidFirstCharacter(x) => Failure::InvalidFirstCharacter(*x),
            JsonError::UnterminatedString => Failure::UnterminatedString,
            JsonError::InvalidStringCharacter(x) => Failure::InvalidStringCharacter(*x),
            JsonError::UnterminatedEscape => Failure::UnterminatedEscape,
            JsonError::InvalidEscape(x) => Failure::InvalidEscape(*x),
            JsonError::UnterminatedUnicodeEscape => Failure::UnterminatedUnicodeEscape,
            JsonError::InvalidUnicodeEscape(x) => Failure::InvalidUnicodeEscape(*x),
            JsonError::UnterminatedLiteral(x) => Failure::UnterminatedLiteral(*x),
            JsonError::InvalidLiteral(x) => Failure::InvalidLiteral(*x),
            JsonError::InvalidNumber => Failure::InvalidNumber,
            JsonError::LeadingZero => Failure::LeadingZero,
            JsonError::EmptyFraction => Failure::EmptyFraction,
            JsonError::UnterminatedExponent => Failure::UnterminatedExponent,
            JsonError::EmptyExponent => Failure::EmptyExponent,
            JsonError::InvalidState(symbol, state) => Failure::InvalidState(*symbol, *state),
            JsonError::UnexpectedEndOfDocument(x) => Failure::UnexpectedEndOfDocument(*x),
            JsonError::NextAfterEndOfDocument => Failure::NextAfterEndOfDocument,
            JsonError::TokenAlreadyBuffered => Failure::TokenAlreadyBuffered,
            JsonError::CharacterAlreadyBuffered => Failure::CharacterAlreadyBuffered,
            JsonError::ExpectedObject => Failure::ExpectedObject,
            JsonError::ExpectedEndAfterObject => Failure::ExpectedEndAfterObject,
            JsonError::DepthExceeded(x) => Failure::DepthExceeded(*x),
            JsonError::UnexpectedToken(x) => Failure::UnexpectedToken(x@),
            JsonError::NotAScalar(x) => Failure::NotAScalar(x@),
            JsonError::InvalidNumberText(x) => Failure::InvalidNumberText(x@),
            JsonError::SpecialValue => Failure::SpecialValue,
        }
    }
}

impl Symbol {
    /// How an error names the symbol.
    pub open spec fn spec_name(self) -> Seq<char> {
        match self {
            Symbol::Colon => "a colon"@,
            Symbol::Comma => "a comma"@,
            Symbol::DoubleQuote => "a double quote"@,
            Symbol::OpenBrace => "an open brace"@,
            Symbol::CloseBrace => "a close brace"@,
            Symbol::OpenBracket => "an open square bracket"@,
            Symbol::CloseBracket => "a close square bracket"@,
            Symbol::NullLiteral => "a null literal"@,
            Symbol::TrueLiteral => "a true literal"@,
            Symbol::FalseLiteral => "a false literal"@,
            Symbol::Number => "a number token"@,
        }
    }

    /// How an error names the symbol.
    pub fn name(self) -> (r: &'static str)
        ensures
            r@ == self.spec_name(),
    {
        match self {
            Symbol::Colon => "a colon",
            Symbol::Comma => "a comma",
            Symbol::DoubleQuote => "a double quote",
            Symbol::OpenBrace => "an open brace",
            Symbol::CloseBrace => "a close brace",
            Symbol::OpenBracket => "an open square bracket",
            Symbol::CloseBracket => "a close square bracket",
            Symbol::NullLiteral => "a null literal",
            Symbol::TrueLiteral => "a true literal",
            Symbol::FalseLiteral => "a false literal",
            Symbol::Number => "a number token",
        }
    }
}

impl TokenKind {
    /// The name of the kind.
    pub open spec fn spec_name(self) -> Seq<char> {
        match self {
            TokenKind::Null => "Null"@,
            TokenKind::False => "False"@,
            TokenKind::True => "True"@,
            TokenKind::StringValue => "StringValue"@,
            TokenKind::Number => "Number"@,
            TokenKind::Name => "Name"@,
            TokenKind::StartObject => "StartObject"@,
            TokenKind::EndObject => "EndObject"@,
            TokenKind::StartArray => "StartArray"@,
            TokenKind::EndArray => "EndArray"@,
            TokenKind::EndDocument => "EndDocument"@,
        }
    }

    /// The name of the kind.
    pub fn name(self) -> (r: &'static str)
        ensures
            r@ == self.spec_name(),
    {
        match self {
            TokenKind::Null => "Null",
            TokenKind::False => "False",
            TokenKind::True => "True",
            TokenKind::StringValue => "StringValue",
            TokenKind::Number => "Number",
            TokenKind::Name => "Name",
            TokenKind::StartObject => "StartObject",
            TokenKind::EndObject => "EndObject",
            TokenKind::StartArray => "StartArray",
            TokenKind::EndArray => "EndArray",
            TokenKind::EndDocument => "EndDocument",
        }
    }
}

/// A character as an error shows it: `U+` and its code in four or more
/// upper-case hex digits.
pub open spec fn code_point_text(c: char) -> Seq<char> {
    "U+"@ + upper_hex_text(c as nat, 4)
}

/// A state as an error shows it: its name between quotes.
pub open spec fn state_text(state: State) -> Seq<char> {
    "\""@ + state.spec_name() + "\""@
}

/// A token as `Debug` shows it: its kind, and its text between brackets
/// where it has one.
pub open spec fn token_debug(token: Token) -> Seq<char> {
    match token {
        Token::StringValue(text) => "StringValue("@ + text_debug(text) + ")"@,
        Token::Number(text) => "Number("@ + text_debug(text) + ")"@,
        Token::Name(text) => "Name("@ + text_debug(text) + ")"@,
        _ => token.kind().spec_name(),
    }
}

/// A token as `Debug` shows it.
fn debug_token(token: &JsonToken) -> (r: String)
    ensures
        r@ == token_debug(token@),
{
    match token {
        JsonToken::StringValue(text) => with_text("StringValue(", text.as_str()),
        JsonToken::Number(text) => with_text("Number(", text.as_str()),
        JsonToken::Name(text) => with_text("Name(", text.as_str()),
        _ => token.kind().name().to_owned(),
    }
}

/// `prefix`, the string `text` as `Debug` shows it, and a closing bracket.
fn with_text(prefix: &str, text: &str) -> (r: String)
    ensures
        r@ == prefix@ + text_debug(text@) + ")"@,
{
    let shown = debug_text(text);
    prefix.to_owned().concat(shown.as_str()).concat(")")
}

impl Failure {
    /// The message of the failure.
    pub open spec fn text(self) -> Seq<char> {
        match self {
            Failure::InvalidFirstCharacter(c) => "Invalid first character of token: Some("@
                + char_debug(c) + ")"@,
            Failure::UnterminatedString => "Unexpected end of text while reading string"@,
            Failure::InvalidStringCharacter(c) => "Invalid character in string literal: "@
                + code_point_text(c),
            Failure::UnterminatedEscape =>
                "Unexpected end of text while reading character escape sequence"@,
            Failure::InvalidEscape(c) => "Invalid character in character escape sequence: "@
                + code_point_text(c),
            Failure::UnterminatedUnicodeEscape =>
                "Unexpected end of text while reading Unicode escape sequence"@,
            Failure::InvalidUnicodeEscape(c) => "Invalid character in escape sequence: "@
                + code_point_text(c),
            Failure::UnterminatedLiteral(which) =>
                "Unexpected end of text while reading literal token "@ + which.text(),
            Failure::InvalidLiteral(which) =>
                "Unexpected character while reading literal token "@ + which.text(),
            Failure::InvalidNumber => "Invalid numeric literal"@,
            Failure::LeadingZero => "Invalid numeric literal: leading 0 for non-zero value."@,
            Failure::EmptyFraction =>
                "Invalid numeric literal: fraction with no trailing digits"@,
            Failure::UnterminatedExponent =>
                "Invalid numeric literal: exponent with no trailing digits"@,
            Failure::EmptyExponent => "Invalid numeric literal: exponent without value"@,
            Failure::InvalidState(symbol, state) => "Invalid state to read "@
                + symbol.spec_name() + ": "@ + state_text(state),
            Failure::UnexpectedEndOfDocument(state) => "Unexpected end of document in state: "@
                + state_text(state),
            Failure::NextAfterEndOfDocument => "Next() called after end of document"@,
            Failure::TokenAlreadyBuffered => "Can't push back twice"@,
            Failure::CharacterAlreadyBuffered =>
                "Cannot push back when already buffering a character"@,
            Failure::ExpectedObject => "Expected an object"@,
            Failure::ExpectedEndAfterObject => "Expected end of JSON after object"@,
            Failure::DepthExceeded(limit) => "The set recursion depth is exceeded: "@
                + natural_text(limit as nat),
            Failure::UnexpectedToken(token) => "Unexpected token type "@ + token_debug(token),
            Failure::NotAScalar(token) =>
                "An error Token occurred while parsing single value: "@ + token_debug(token),
            Failure::InvalidNumberText(text) => "Invalid number: "@ + text,
            Failure::SpecialValue => "Reject special value"@,
        }
    }
}

impl JsonError {
    /// The message of the error.
    pub fn message(&self) -> (r: String)
        ensures
            r@ == self@.text(),
    {
        match self {
            JsonError::InvalidFirstCharacter(c) => {
                let shown = debug_char(*c);
                "Invalid first character of token: Some(".to_owned().concat(
                    shown.as_str(),
                ).concat(")")
            },
            JsonError::UnterminatedString => "Unexpected end of text while reading string".to_owned(),
            JsonError::InvalidStringCharacter(c) => with_code_point(
                "Invalid character in string literal: ",
                *c,
            ),
            JsonError::UnterminatedEscape =>
                "Unexpected end of text while reading character escape sequence".to_owned(),
            JsonError::InvalidEscape(c) => with_code_point(
                "Invalid character in character escape sequence: ",
                *c,
            ),
            JsonError::UnterminatedUnicodeEscape =>
                "Unexpected end of text while reading Unicode escape sequence".to_owned(),
            JsonError::InvalidUnicodeEscape(c) => with_code_point(
                "Invalid character in escape sequence: ",
                *c,
            ),
            JsonError::UnterminatedLiteral(which) =>
                "Unexpected end of text while reading literal token ".to_owned().concat(
                which.keyword(),
            ),
            JsonError::InvalidLiteral(which) =>
                "Unexpected character while reading literal token ".to_owned().concat(
                which.keyword(),
            ),
            JsonError::InvalidNumber => "Invalid numeric literal".to_owned(),
            JsonError::LeadingZero =>
                "Invalid numeric literal: leading 0 for non-zero value.".to_owned(),
            JsonError::EmptyFraction =>
                "Invalid numeric literal: fraction with no trailing digits".to_owned(),
            JsonError::UnterminatedExponent =>
                "Invalid numeric literal: exponent with no trailing digits".to_owned(),
            JsonError::EmptyExponent =>
                "Invalid numeric literal: exponent without value".to_owned(),
            JsonError::InvalidState(symbol, state) => {
                let s = "Invalid state to read ".to_owned().concat(symbol.name()).concat(": ");
                let r = with_state(s, *state);
                proof {
                    assert(r@ =~= self@.text());
                }
                r
            },
            JsonError::UnexpectedEndOfDocument(state) => with_state(
                "Unexpected end of document in state: ".to_owned(),
                *state,
            ),
            JsonError::NextAfterEndOfDocument => "Next() called after end of document".to_owned(),
            JsonError::TokenAlreadyBuffered => "Can't push back twice".to_owned(),
            JsonError::CharacterAlreadyBuffered =>
                "Cannot push back when already buffering a character".to_owned(),
            JsonError::ExpectedObject => "Expected an object".to_owned(),
            JsonError::ExpectedEndAfterObject => "Expected end of JSON after object".to_owned(),
            JsonError::DepthExceeded(limit) => {
                let mut s = "The set recursion depth is exceeded: ".to_owned();
                append_natural(&mut s, *limit as u64);
                s
            },
            JsonError::UnexpectedToken(token) => {
                let shown = debug_token(token);
                "Unexpected token type ".to_owned().concat(shown.as_str())
            },
            JsonError::NotAScalar(token) => {
                let shown = debug_token(token);
                "An error Token occurred while parsing single value: ".to_owned().concat(
                    shown.as_str(),
                )
            },
            JsonError::InvalidNumberText(text) => "Invalid number: ".to_owned().concat(
                text.as_str(),
            ),
            JsonError::SpecialValue => "Reject special value".to_owned(),
        }
    }
}

/// `prefix` and the character `c` as an error shows it.
fn with_code_point(prefix: &str, c: char) -> (r: String)
    ensures
        r@ == prefix@ + code_point_text(c),
{
    let mut s = prefix.to_owned().concat("U+");
    append_upper_hex(&mut s, c as u32, 4);
    proof {
        assert(s@ =~= prefix@ + code_point_text(c));
    }
    s
}

/// `prefix` and the state `state` as an error shows it.
fn with_state(prefix: String, state: State) -> (r: String)
    ensures
        r@ == prefix@ + state_text(state),
{
    let s = prefix.concat("\"").concat(state.name()).concat("\"");
    proof {
        assert(s@ =~= prefix@ + state_text(state));
    }
    s
}

} // verus!
