//! The object's own way to and from JSON text.

use vstd::prelude::*;
use crate::json_error::JsonError;
use crate::json_reader::{parse_document, JsonReader, JsonReaderSettings};
use crate::json_writer::{object_text, JsonWriter, JsonWriterSettings};
use crate::model::merge;
use crate::value::JsonMap;

verus! {

impl JsonMap {
    /// The object as compact JSON text, on one line.
    pub fn to_json(&self) -> (r: String)
        ensures
            r@ == object_text(self@, Seq::empty(), Seq::empty()),
    {
        self.to_json_with_settings(JsonWriterSettings::default())
    }

    /// The object as JSON text, laid out as `settings` says.
    pub fn to_json_with_settings(&self, settings: JsonWriterSettings) -> (r: String)
        ensures
            r@ == object_text(self@, settings.indentation@, Seq::empty()),
    {
        JsonWriter::new(settings).format(self)
    }

    /// Reads the one object that `json` holds and puts its entries into
    /// this object, one after the other. Objects may be nested up to 100
    /// deep. Where reading fails this object stays as it was.
    pub fn merge(&mut self, json: &str) -> (r: Result<(), JsonError>)
        ensures
            match parse_document(json@, 100) {
                Err(e) => r matches Err(x) && x@ == e && final(self)@ == old(self)@,
                Ok(entries) => r is Ok && final(self)@ == merge(old(self)@, entries),
            },
    {
        self.merge_with_settings(json, JsonReaderSettings::default())
    }

    /// Reads the one object that `json` holds and puts its entries into
    /// this object, one after the other, with objects nested as deep as
    /// `settings` allows. Where reading fails this object stays as it was.
    pub fn merge_with_settings(&mut self, json: &str, settings: JsonReaderSettings) -> (r: Result<
        (),
        JsonError,
    >)
        ensures
            match parse_document(json@, settings.recursion_limit) {
                Err(e) => r matches Err(x) && x@ == e && final(self)@ == old(self)@,
                Ok(entries) => r is Ok && final(self)@ == merge(old(self)@, entries),
            },
    {
        JsonReader::new(settings).parse(self, json)
    }
}

} // verus!
