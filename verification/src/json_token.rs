//! The tokens that the scanner hands out.

use vstd::prelude::*;
use crate::json_error::TokenKind;

verus! {

/// A lexical unit above characters and below tree nodes. Colons, commas and
/// whitespace are no tokens: the scanner consumes them.
#[derive(Debug, PartialEq, Hash)]
pub enum JsonToken {
    Null,
    False,
    True,
    /// A string that stands as a value, decoded.
    StringValue(String),
    /// A number as it was written.
    Number(String),
    /// The name of a property, decoded.
    Name(String),
    StartObject,
    EndObject,
    StartArray,
    EndArray,
    /// The end of the text. Scanning after it is an error.
    EndDocument,
}

/// A token over sequences of characters: what a [`JsonToken`] holds.
pub enum Token {
    Null,
    False,
    True,
    StringValue(Seq<char>),
    Number(Seq<char>),
    Name(Seq<char>),
    StartObject,
    EndObject,
    StartArray,
    EndArray,
    EndDocument,
}

impl Token {
    /// The token without its text.
    pub open spec fn kind(self) -> TokenKind {
        match self {
            Token::Null => TokenKind::Null,
            Token::False => TokenKind::False,
            Token::True => TokenKind::True,
            Token::StringValue(_) => TokenKind::StringValue,
            Token::Number(_) => TokenKind::Number,
            Token::Name(_) => TokenKind::Name,
            Token::StartObject => TokenKind::StartObject,
            Token::EndObject => TokenKind::EndObject,
            Token::StartArray => TokenKind::StartArray,
            Token::EndArray => TokenKind::EndArray,
            Token::EndDocument => TokenKind::EndDocument,
        }
    }
}

impl View for JsonToken {
    type V = Token;

    open spec fn view(&self) -> Token {
        match self {
            JsonToken::Null => Token::Null,
            JsonToken::False => Token::False,
            JsonToken::True => Token::True,
            JsonToken::StringValue(s) => Token::StringValue(s@),
            JsonToken::Number(s) => Token::Number(s@),
            JsonToken::Name(s) => Token::Name(s@),
            JsonToken::StartObject => Token::StartObject,
            JsonToken::EndObject => Token::EndObject,
            JsonToken::StartArray => Token::StartArray,
            JsonToken::EndArray => Token::EndArray,
            JsonToken::EndDocument => Token::EndDocument,
        }
    }
}

impl JsonToken {
    /// The token without its text.
    pub fn kind(&self) -> (r: TokenKind)
        ensures
            r == self@.kind(),
    {
        match self {
            JsonToken::Null => TokenKind::Null,
            JsonToken::False => TokenKind::False,
            JsonToken::True => TokenKind::True,
            JsonToken::StringValue(_) => TokenKind::StringValue,
            JsonToken::Number(_) => TokenKind::Number,
            JsonToken::Name(_) => TokenKind::Name,
            JsonToken::StartObject => TokenKind::StartObject,
            JsonToken::EndObject => TokenKind::EndObject,
            JsonToken::StartArray => TokenKind::StartArray,
            JsonToken::EndArray => TokenKind::EndArray,
            JsonToken::EndDocument => TokenKind::EndDocument,
        }
    }
}

impl Clone for JsonToken {
    /// A token that holds the same.
    fn clone(&self) -> (r: Self)
        ensures
            r@ == self@,
    {
        match self {
            JsonToken::Null => JsonToken::Null,
            JsonToken::False => JsonToken::False,
            JsonToken::True => JsonToken::True,
            JsonToken::StringValue(s) => JsonToken::StringValue(s.clone()),
            JsonToken::Number(s) => JsonToken::Number(s.clone()),
            JsonToken::Name(s) => JsonToken::Name(s.clone()),
            JsonToken::StartObject => JsonToken::StartObject,
            JsonToken::EndObject => JsonToken::EndObject,
            JsonToken::StartArray => JsonToken::StartArray,
            JsonToken::EndArray => JsonToken::EndArray,
            JsonToken::EndDocument => JsonToken::EndDocument,
        }
    }
}

} // verus!
