//! Positions in the JSON grammar and the kinds of open containers.

use vstd::prelude::*;

verus! {

/// Where the scanner stands in the grammar. The caret in each example marks
/// the position.
#[derive(Clone, Copy, Debug, PartialEq, Eq, Structural)]
pub enum State {
    /// `^ { "foo": "bar" }`: before the value of the document.
    StartOfDocument,
    /// `{ "foo": "bar" } ^`: after the value of the document.
    ExpectedEndOfDocument,
    /// The end of the text has been reported. Terminal.
    ReaderExhausted,
    /// `{ ^ "foo": "bar" }`: before the first property of an object.
    ObjectStart,
    /// `{ "foo" ^ : "bar" }`: after a property name.
    ObjectBeforeColon,
    /// `{ "foo" : ^ "bar" }`: before a property value.
    ObjectAfterColon,
    /// `{ "foo" : "bar" ^ , "x" : "y" }`: after a property value.
    ObjectAfterProperty,
    /// `{ "foo" : "bar", ^ "x" : "y" }`: after the comma that follows a property.
    ObjectAfterComma,
    /// `[ ^ "foo", "bar" ]`: before the first value of an array.
    ArrayStart,
    /// `[ "foo" ^ , "bar" ]`: after a value of an array.
    ArrayAfterValue,
    /// `[ "foo", ^ "bar" ]`: after a comma in an array.
    ArrayAfterComma,
}

/// The kind of an open container. The document itself is the outermost one.
#[derive(Clone, Copy, Debug, PartialEq, Eq, Structural)]
pub enum ContainerType {
    Document,
    Object,
    Array,
}

impl State {
    /// The states in which a value (literal, string, number, object or array)
    /// may begin.
    pub open spec fn accepts_value(self) -> bool {
        self == State::ArrayStart || self == State::ArrayAfterComma
            || self == State::ObjectAfterColon || self == State::StartOfDocument
    }

    /// The state that follows a complete simple value begun in `self`.
    pub open spec fn after_value(self) -> State
        recommends
            self.accepts_value(),
    {
        match self {
            State::StartOfDocument => State::ExpectedEndOfDocument,
            State::ObjectAfterColon => State::ObjectAfterProperty,
            _ => State::ArrayAfterValue,
        }
    }

    /// The state restored when a container closes and `parent` becomes the
    /// innermost open container.
    pub open spec fn after_close(parent: ContainerType) -> State {
        match parent {
            ContainerType::Object => State::ObjectAfterProperty,
            ContainerType::Array => State::ArrayAfterValue,
            ContainerType::Document => State::ExpectedEndOfDocument,
        }
    }

    /// The kind of container in which a scanner in state `self` stands.
    pub open spec fn container(self) -> ContainerType {
        match self {
            State::StartOfDocument | State::ExpectedEndOfDocument | State::ReaderExhausted =>
                ContainerType::Document,
            State::ObjectStart | State::ObjectBeforeColon | State::ObjectAfterColon
            | State::ObjectAfterProperty | State::ObjectAfterComma => ContainerType::Object,
            State::ArrayStart | State::ArrayAfterValue | State::ArrayAfterComma =>
                ContainerType::Array,
        }
    }

    /// The upper-case name of the state, as error messages show it.
    pub fn name(self) -> (r: &'static str)
        ensures
            r@ == self.spec_name(),
    {
        match self {
            State::StartOfDocument => "START_OF_DOCUMENT",
            State::ExpectedEndOfDocument => "EXPECTED_END_OF_DOCUMENT",
            State::ReaderExhausted => "READER_EXHAUSTED",
            State::ObjectStart => "OBJECT_START",
            State::ObjectBeforeColon => "OBJECT_BEFORE_COLON",
            State::ObjectAfterColon => "OBJECT_AFTER_COLON",
            State::ObjectAfterProperty => "OBJECT_AFTER_PROPERTY",
            State::ObjectAfterComma => "OBJECT_AFTER_COMMA",
            State::ArrayStart => "ARRAY_START",
            State::ArrayAfterValue => "ARRAY_AFTER_VALUE",
            State::ArrayAfterComma => "ARRAY_AFTER_COMMA",
        }
    }

    /// The text that [`State::name`] returns.
    pub open spec fn spec_name(self) -> Seq<char> {
        match self {
            State::StartOfDocument => "START_OF_DOCUMENT"@,
            State::ExpectedEndOfDocument => "EXPECTED_END_OF_DOCUMENT"@,
            State::ReaderExhausted => "READER_EXHAUSTED"@,
            State::ObjectStart => "OBJECT_START"@,
            State::ObjectBeforeColon => "OBJECT_BEFORE_COLON"@,
            State::ObjectAfterColon => "OBJECT_AFTER_COLON"@,
            State::ObjectAfterProperty => "OBJECT_AFTER_PROPERTY"@,
            State::ObjectAfterComma => "OBJECT_AFTER_COMMA"@,
            State::ArrayStart => "ARRAY_START"@,
            State::ArrayAfterValue => "ARRAY_AFTER_VALUE"@,
            State::ArrayAfterComma => "ARRAY_AFTER_COMMA"@,
        }
    }
}

} // verus!
