//! Strict JSON text to an ordered key/value tree, and back.
//!
//! Text flows one way: characters ([`push_back_reader`]) become tokens
//! ([`json_text_tokenizer`], [`json_tokenizer`]), tokens become a tree
//! ([`json_reader`], [`value`]), and a tree becomes text again
//! ([`json_writer`]). Each step is specified over sequences of characters
//! ([`grammar`], [`model`]) and proved against that specification.
//!
//! Four laws tie the steps together: a tree that was read, written and
//! read again is the same tree ([`round_trip`]); the depth of the token
//! stream counts the open objects ([`json_tokenizer`]); skipping a value
//! passes just what reading it consumes ([`json_reader`]); and a number is
//! refused as too large just where it reaches 2^1024 - 2^970
//! ([`magnitude`], [`limit_value`]).

pub mod grammar;
pub mod json_error;
pub mod json_map;
pub mod json_reader;
pub mod json_text_tokenizer;
pub mod json_token;
pub mod json_tokenizer;
pub mod json_writer;
pub mod limit_value;
pub mod magnitude;
pub mod model;
pub mod number;
pub mod push_back_reader;
pub mod round_trip;
pub mod state;
pub mod text;
pub mod value;

pub use json_error::JsonError;
pub use json_reader::{JsonReader, JsonReaderSettings};
pub use json_token::JsonToken;
pub use json_tokenizer::JsonTokenizer;
pub use json_writer::{JsonWriter, JsonWriterSettings};
pub use state::{ContainerType, State};
pub use value::{Float, JsonMap, Value};
