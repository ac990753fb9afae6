//! The tree builder: from the token stream to a value tree.

use vstd::prelude::*;
use crate::grammar::is_json_number;
use crate::json_error::{Failure, JsonError};
use crate::json_token::{JsonToken, Token};
use crate::json_tokenizer::{lemma_next, JsonTokenizer, TokenStream};
use crate::model::{insert, merge, Entries, Json};
use crate::number::{exceeds_finite, integer_of, parse_i64};
use crate::text::chars_of;
use crate::value::{lemma_models_push, models, Float, JsonMap, Value};

verus! {

/// What the text of a number token is worth: a 64-bit integer where it
/// spells one, else the number literal itself, unless it is none of the
/// grammar or too large in magnitude for a finite 64-bit binary float.
pub open spec fn number_value(text: Seq<char>) -> Result<Json, Failure> {
    match integer_of(text) {
        Some(n) => Ok(Json::Integer(n)),
        None => if !is_json_number(text) {
            Err(Failure::InvalidNumberText(text))
        } else if exceeds_finite(text) {
            Err(Failure::SpecialValue)
        } else {
            Ok(Json::Float(text))
        },
    }
}

/// The simple value that a token stands for.
pub open spec fn scalar(token: Token) -> Result<Json, Failure> {
    match token {
        Token::Null => Ok(Json::Null),
        Token::False => Ok(Json::Bool(false)),
        Token::True => Ok(Json::Bool(true)),
        Token::StringValue(text) => Ok(Json::String(text)),
        Token::Number(text) => number_value(text),
        _ => Err(Failure::NotAScalar(token)),
    }
}

/// The value that the stream begins with, and the stream after it. A start
/// of object is pushed back and read again as the start of its object, so
/// that every object, nested or not, meets the same test of its depth.
pub open spec fn parse_value(stream: TokenStream, limit: usize) -> Result<
    (Json, TokenStream),
    Failure,
>
    decreases stream.measure(), 1nat,
    when stream.wf()
{
    match stream.next() {
        Err(e) => Err(e@),
        Ok((token, after)) => {
            proof {
                lemma_next(stream);
            }
            match token {
                Token::StartArray => match parse_elements(after, Seq::empty(), limit) {
                    Err(e) => Err(e),
                    Ok((items, rest)) => Ok((Json::Sequence(items), rest)),
                },
                Token::StartObject => match after.push_back(token) {
                    Err(e) => Err(e@),
                    Ok(again) => match parse_object(again, Seq::empty(), limit) {
                        Err(e) => Err(e),
                        Ok((entries, rest)) => Ok((Json::Object(entries), rest)),
                    },
                },
                _ => match scalar(token) {
                    Err(e) => Err(e),
                    Ok(value) => Ok((value, after)),
                },
            }
        },
    }
}

/// The values of an array whose start has been consumed, after `items`,
/// up to the end of the array, and the stream after it. The test on the
/// measure never fails ([`lemma_parse_value`]): it is there for the
/// definition to be well founded.
pub open spec fn parse_elements(stream: TokenStream, items: Seq<Json>, limit: usize) -> Result<
    (Seq<Json>, TokenStream),
    Failure,
>
    decreases stream.measure(), 2nat,
    when stream.wf()
{
    match stream.next() {
        Err(e) => Err(e@),
        Ok((token, after)) => {
            proof {
                lemma_next(stream);
            }
            if token is EndArray {
                Ok((items, after))
            } else {
                match after.push_back(token) {
                    Err(e) => Err(e@),
                    Ok(again) => match parse_value(again, limit) {
                        Err(e) => Err(e),
                        Ok((item, rest)) => if rest.measure() < stream.measure() {
                            parse_elements(rest, items.push(item), limit)
                        } else {
                            Err(Failure::NextAfterEndOfDocument)
                        },
                    },
                }
            }
        },
    }
}

/// The object that the stream begins with, its entries put into `entries`,
/// and the stream after it. An object whose depth, counted with itself,
/// is above `limit` fails as soon as it starts.
pub open spec fn parse_object(stream: TokenStream, entries: Entries, limit: usize) -> Result<
    (Entries, TokenStream),
    Failure,
>
    decreases stream.measure(), 0nat,
    when stream.wf()
{
    match stream.next() {
        Err(e) => Err(e@),
        Ok((token, after)) => {
            proof {
                lemma_next(stream);
            }
            if !(token is StartObject) {
                Err(Failure::ExpectedObject)
            } else if after.depth > limit {
                Err(Failure::DepthExceeded(limit))
            } else {
                parse_members(after, entries, limit)
            }
        },
    }
}

/// The properties of an object whose start has been consumed, put into
/// `entries` one after the other, up to the end of the object, and the
/// stream after it. A later value under a key replaces an earlier one. The
/// test on the measure never fails ([`lemma_parse_value`]): it is there
/// for the definition to be well founded.
pub open spec fn parse_members(stream: TokenStream, entries: Entries, limit: usize) -> Result<
    (Entries, TokenStream),
    Failure,
>
    decreases stream.measure(), 0nat,
    when stream.wf()
{
    match stream.next() {
        Err(e) => Err(e@),
        Ok((token, after)) => {
            proof {
                lemma_next(stream);
            }
            match token {
                Token::EndObject => Ok((entries, after)),
                Token::Name(name) => match parse_value(after, limit) {
                    Err(e) => Err(e),
                    Ok((value, rest)) => if rest.measure() < stream.measure() {
                        parse_members(rest, insert(entries, name, value), limit)
                    } else {
                        Err(Failure::NextAfterEndOfDocument)
                    },
                },
                _ => Err(Failure::UnexpectedToken(token)),
            }
        },
    }
}

/// The entries as they stand when the reading of the properties of an
/// object stops, at the end of the object or at an error: the properties
/// read until then have been put into `entries`.
pub open spec fn members_read(stream: TokenStream, entries: Entries, limit: usize) -> Entries
    decreases stream.measure(),
    when stream.wf()
{
    match stream.next() {
        Ok((Token::Name(name), after)) => {
            proof {
                lemma_next(stream);
            }
            match parse_value(after, limit) {
                Ok((value, rest)) => if rest.measure() < stream.measure() {
                    members_read(rest, insert(entries, name, value), limit)
                } else {
                    entries
                },
                Err(_) => entries,
            }
        },
        _ => entries,
    }
}

/// The entries as they stand when the reading of an object stops, at its
/// end or at an error. Where the stream does not begin with the start of
/// an object, or the object is too deep, they are `entries` unchanged.
pub open spec fn object_read(stream: TokenStream, entries: Entries, limit: usize) -> Entries {
    match stream.next() {
        Ok((token, after)) => if token is StartObject && after.depth <= limit {
            members_read(after, entries, limit)
        } else {
            entries
        },
        Err(_) => entries,
    }
}

/// The entries of the one object that `text` holds. Only whitespace may
/// follow the object.
pub open spec fn parse_document(text: Seq<char>, limit: usize) -> Result<Entries, Failure> {
    match parse_object(TokenStream::start(text), Seq::empty(), limit) {
        Err(e) => Err(e),
        Ok((entries, rest)) => match rest.next() {
            Err(e) => Err(e@),
            Ok((token, _)) => if token is EndDocument {
                Ok(entries)
            } else {
                Err(Failure::ExpectedEndAfterObject)
            },
        },
    }
}

/// A value that has been read leaves a well-formed stream with nothing
/// pushed back, nearer to its end than before, at the depth at which the
/// value began. So the tests on the measure in [`parse_elements`] and
/// [`parse_members`] hold wherever they are made.
pub proof fn lemma_parse_value(stream: TokenStream, limit: usize)
    requires
        stream.wf(),
    ensures
        parse_value(stream, limit) matches Ok((value, rest)) ==> rest.wf() && rest.buffered is None
            && rest.measure() < stream.measure() && rest.depth == stream.depth,
    decreases stream.measure(), 1nat,
{
    lemma_next(stream);
    if let Ok((token, after)) = stream.next() {
        match token {
            Token::StartArray => {
                lemma_parse_elements(after, Seq::empty(), limit);
            },
            Token::StartObject => {
                let again = after.push_back(token)->Ok_0;
                lemma_parse_object(again, Seq::empty(), limit);
            },
            _ => {},
        }
    }
}

/// [`lemma_parse_value`] for the values of an array.
pub proof fn lemma_parse_elements(stream: TokenStream, items: Seq<Json>, limit: usize)
    requires
        stream.wf(),
    ensures
        parse_elements(stream, items, limit) matches Ok((all, rest)) ==> rest.wf()
            && rest.buffered is None && rest.measure() < stream.measure() && rest.depth
            == stream.depth,
    decreases stream.measure(), 2nat,
{
    lemma_next(stream);
    if let Ok((token, after)) = stream.next() {
        if !(token is EndArray) {
            let again = after.push_back(token)->Ok_0;
            assert(again.wf());
            lemma_parse_value(again, limit);
            if let Ok((item, rest)) = parse_value(again, limit) {
                lemma_parse_elements(rest, items.push(item), limit);
            }
        }
    }
}

/// [`lemma_parse_value`] for an object. Where it is read to the end, the
/// entries as they stand are the entries read.
pub proof fn lemma_parse_object(stream: TokenStream, entries: Entries, limit: usize)
    requires
        stream.wf(),
    ensures
        parse_object(stream, entries, limit) matches Ok((all, rest)) ==> rest.wf()
            && rest.buffered is None && rest.measure() < stream.measure() && rest.depth
            == stream.depth && object_read(stream, entries, limit) == all,
    decreases stream.measure(), 0nat,
{
    lemma_next(stream);
    if let Ok((token, after)) = stream.next() {
        if token is StartObject && after.depth <= limit {
            lemma_parse_members(after, entries, limit);
        }
    }
}

/// [`lemma_parse_value`] for the properties of an object. Where they are
/// read to the end, the entries as they stand are the entries read.
pub proof fn lemma_parse_members(stream: TokenStream, entries: Entries, limit: usize)
    requires
        stream.wf(),
    ensures
        parse_members(stream, entries, limit) matches Ok((all, rest)) ==> rest.wf()
            && rest.buffered is None && rest.measure() < stream.measure() && rest.depth
            == stream.depth - 1 && members_read(stream, entries, limit) == all,
    decreases stream.measure(), 0nat,
{
    lemma_next(stream);
    if let Ok((token, after)) = stream.next() {
        if let Token::Name(name) = token {
            lemma_parse_value(after, limit);
            if let Ok((value, rest)) = parse_value(after, limit) {
                lemma_parse_members(rest, insert(entries, name, value), limit);
            }
        }
    }
}

/// Skipping depends on the stream through its next token only.
proof fn lemma_skip_by_next(a: TokenStream, b: TokenStream, balance: int)
    requires
        a.wf(),
        b.wf(),
        a.next() == b.next(),
    ensures
        a.skip_from(balance) == b.skip_from(balance),
{
    lemma_next(a);
}

/// What skipping from `balance` containers deep comes to once one container
/// less is open and the stream stands at `rest`.
pub open spec fn skip_after_close(rest: TokenStream, balance: int) -> Result<
    TokenStream,
    JsonError,
> {
    if balance == 1 {
        Ok(rest)
    } else {
        rest.skip_from(balance - 1)
    }
}

/// What skipping from `balance` containers deep comes to once a whole
/// value has gone by and the stream stands at `rest`.
pub open spec fn skip_after_value(rest: TokenStream, balance: int) -> Result<
    TokenStream,
    JsonError,
> {
    if balance == 0 {
        Ok(rest)
    } else {
        rest.skip_from(balance)
    }
}

/// Wherever a value can be read, skipping goes by the same value: it
/// passes just the tokens that reading the value consumes.
pub proof fn lemma_skip_value_read(stream: TokenStream, limit: usize, balance: int)
    requires
        stream.wf(),
        balance >= 0,
    ensures
        parse_value(stream, limit) matches Ok((value, rest)) ==> stream.skip_from(balance)
            == skip_after_value(rest, balance),
    decreases stream.measure(), 1nat,
{
    lemma_next(stream);
    lemma_parse_value(stream, limit);
    if let Ok((token, after)) = stream.next() {
        match token {
            Token::StartArray => {
                lemma_skip_elements(after, Seq::empty(), limit, balance + 1);
                lemma_parse_elements(after, Seq::empty(), limit);
            },
            Token::StartObject => {
                let again = after.push_back(token)->Ok_0;
                lemma_skip_object(again, Seq::empty(), limit, balance);
                lemma_skip_by_next(again, stream, balance);
            },
            _ => {},
        }
    }
}

/// [`lemma_skip_value_read`] for the values of an array, to its end.
proof fn lemma_skip_elements(stream: TokenStream, items: Seq<Json>, limit: usize, balance: int)
    requires
        stream.wf(),
        balance >= 1,
    ensures
        parse_elements(stream, items, limit) matches Ok((all, rest)) ==> stream.skip_from(balance)
            == skip_after_close(rest, balance),
    decreases stream.measure(), 2nat,
{
    lemma_next(stream);
    if let Ok((token, after)) = stream.next() {
        if !(token is EndArray) {
            let again = after.push_back(token)->Ok_0;
            assert(again.wf());
            assert(again.next() == stream.next());
            lemma_skip_by_next(again, stream, balance);
            lemma_parse_value(again, limit);
            lemma_skip_value_read(again, limit, balance);
            if let Ok((item, rest)) = parse_value(again, limit) {
                lemma_skip_elements(rest, items.push(item), limit, balance);
            }
        }
    }
}

/// [`lemma_skip_value_read`] for an object.
proof fn lemma_skip_object(stream: TokenStream, entries: Entries, limit: usize, balance: int)
    requires
        stream.wf(),
        balance >= 0,
    ensures
        parse_object(stream, entries, limit) matches Ok((all, rest)) ==> stream.skip_from(balance)
            == skip_after_value(rest, balance),
    decreases stream.measure(), 0nat,
{
    lemma_next(stream);
    if let Ok((token, after)) = stream.next() {
        if token is StartObject && after.depth <= limit {
            lemma_skip_members(after, entries, limit, balance + 1);
            lemma_parse_members(after, entries, limit);
        }
    }
}

/// [`lemma_skip_value_read`] for the properties of an object, to its end.
proof fn lemma_skip_members(stream: TokenStream, entries: Entries, limit: usize, balance: int)
    requires
        stream.wf(),
        balance >= 1,
    ensures
        parse_members(stream, entries, limit) matches Ok((all, rest)) ==> stream.skip_from(balance)
            == skip_after_close(rest, balance),
    decreases stream.measure(), 0nat,
{
    lemma_next(stream);
    if let Ok((token, after)) = stream.next() {
        if let Token::Name(name) = token {
            lemma_parse_value(after, limit);
            lemma_skip_value_read(after, limit, balance);
            if let Ok((value, rest)) = parse_value(after, limit) {
                lemma_skip_members(rest, insert(entries, name, value), limit, balance);
            }
        }
    }
}

/// Skipping a value succeeds wherever the value can be read, however deep
/// it is nested, and leaves the stream where reading the value leaves it:
/// right after the value, with nothing pushed back, at the same depth. So
/// where the name of the next property follows the value, that name is the
/// next token after the skip.
pub proof fn lemma_skip_value_succeeds(stream: TokenStream, limit: usize)
    requires
        stream.wf(),
    ensures
        parse_value(stream, limit) matches Ok((value, rest)) ==> {
            &&& stream.skip_value() == Ok::<TokenStream, JsonError>(rest)
            &&& rest.wf()
            &&& rest.buffered is None
            &&& rest.depth == stream.depth
        },
{
    lemma_skip_value_read(stream, limit, 0);
    lemma_parse_value(stream, limit);
}

/// What a reader is set up with.
pub struct JsonReaderSettings {
    /// The deepest nesting of objects that is read: an object nested
    /// deeper fails the parse.
    pub recursion_limit: usize,
}

impl Default for JsonReaderSettings {
    /// Objects up to 100 deep.
    fn default() -> (r: Self)
        ensures
            r.recursion_limit == 100,
    {
        JsonReaderSettings { recursion_limit: 100 }
    }
}

/// Builds a value tree from JSON text.
pub struct JsonReader {
    settings: JsonReaderSettings,
}

impl JsonReader {
    /// The deepest nesting of objects that the reader accepts.
    pub closed spec fn limit(&self) -> usize {
        self.settings.recursion_limit
    }

    /// A reader with the settings `settings`.
    pub fn new(settings: JsonReaderSettings) -> (r: Self)
        ensures
            r.limit() == settings.recursion_limit,
    {
        JsonReader { settings }
    }

    /// Reads the one object that `json` holds and puts its entries into
    /// `obj`, one after the other. Where the text is no such object, or an
    /// object in it is nested too deep, or a number in it is too large,
    /// `obj` stays as it was.
    pub fn parse(&self, obj: &mut JsonMap, json: &str) -> (r: Result<(), JsonError>)
        ensures
            match parse_document(json@, self.limit()) {
                Err(e) => r matches Err(x) && x@ == e && final(obj)@ == old(obj)@,
                Ok(entries) => r is Ok && final(obj)@ == merge(old(obj)@, entries),
            },
    {
        let mut tokenizer = JsonTokenizer::new(json);
        let mut parsed = JsonMap::new();
        self.parse_object(&mut parsed, &mut tokenizer)?;
        let last_token = tokenizer.next()?;
        match last_token {
            JsonToken::EndDocument => {
                obj.merge_from(parsed);
                Ok(())
            },
            _ => Err(JsonError::ExpectedEndAfterObject),
        }
    }

    /// Reads an object from its start to its end and puts its entries into
    /// `obj`, one after the other. Where the stream does not begin with the
    /// start of an object, or the object is too deep, `obj` stays as it
    /// was; after a later error it holds the properties read until then.
    pub fn parse_object(&self, obj: &mut JsonMap, tokenizer: &mut JsonTokenizer) -> (r: Result<
        (),
        JsonError,
    >)
        requires
            old(tokenizer).wf(),
        ensures
            final(tokenizer).wf(),
            final(tokenizer)@.wf(),
            final(obj)@ == object_read(old(tokenizer)@, old(obj)@, self.limit()),
            match parse_object(old(tokenizer)@, old(obj)@, self.limit()) {
                Err(e) => r matches Err(x) && x@ == e,
                Ok((entries, rest)) => {
                    &&& r is Ok
                    &&& final(obj)@ == entries
                    &&& final(tokenizer)@ == rest
                    &&& rest.buffered is None
                    &&& rest.measure() < old(tokenizer)@.measure()
                },
            },
        decreases old(tokenizer)@.measure(), 0nat,
    {
        proof {
            tokenizer.lemma_wf();
            lemma_next(tokenizer@);
        }
        let token = tokenizer.next()?;
        match token {
            JsonToken::StartObject => {},
            _ => {
                return Err(JsonError::ExpectedObject);
            },
        }
        if tokenizer.depth() > self.settings.recursion_limit {
            return Err(JsonError::DepthExceeded(self.settings.recursion_limit));
        }
        loop
            invariant
                tokenizer.wf(),
                tokenizer@.buffered is None,
                tokenizer@.measure() < old(tokenizer)@.measure(),
                parse_object(old(tokenizer)@, old(obj)@, self.limit()) == parse_members(
                    tokenizer@,
                    obj@,
                    self.limit(),
                ),
                object_read(old(tokenizer)@, old(obj)@, self.limit()) == members_read(
                    tokenizer@,
                    obj@,
                    self.limit(),
                ),
            decreases tokenizer@.measure(),
        {
            proof {
                tokenizer.lemma_wf();
                lemma_next(tokenizer@);
            }
            let token = tokenizer.next()?;
            match token {
                JsonToken::EndObject => {
                    return Ok(());
                },
                JsonToken::Name(name) => {
                    let val = self.parse_value_type(tokenizer)?;
                    obj.insert(name, val);
                },
                other => {
                    return Err(JsonError::UnexpectedToken(other));
                },
            }
        }
    }

    /// Reads one value: a simple value, an array or an object.
    pub fn parse_value_type(&self, tokenizer: &mut JsonTokenizer) -> (r: Result<Value, JsonError>)
        requires
            old(tokenizer).wf(),
        ensures
            final(tokenizer).wf(),
            final(tokenizer)@.wf(),
            match parse_value(old(tokenizer)@, self.limit()) {
                Err(e) => r matches Err(x) && x@ == e,
                Ok((value, rest)) => {
                    &&& r matches Ok(v)
                    &&& v@ == value
                    &&& final(tokenizer)@ == rest
                    &&& rest.buffered is None
                    &&& rest.measure() < old(tokenizer)@.measure()
                },
            },
        decreases old(tokenizer)@.measure(), 1nat,
    {
        proof {
            tokenizer.lemma_wf();
            lemma_next(tokenizer@);
        }
        let token = tokenizer.next()?;
        proof {
            tokenizer.lemma_wf();
        }
        match token {
            JsonToken::StartArray => self.parse_array(tokenizer),
            JsonToken::StartObject => {
                let mut nested_obj = JsonMap::new();
                tokenizer.push_back(token)?;
                self.parse_object(&mut nested_obj, tokenizer)?;
                Ok(Value::Object(nested_obj))
            },
            other => self.parse_single_value(&other),
        }
    }

    /// Reads the values of an array, the start of which has been read, up
    /// to its end.
    pub fn parse_array(&self, tokenizer: &mut JsonTokenizer) -> (r: Result<Value, JsonError>)
        requires
            old(tokenizer).wf(),
        ensures
            final(tokenizer).wf(),
            final(tokenizer)@.wf(),
            match parse_elements(old(tokenizer)@, Seq::empty(), self.limit()) {
                Err(e) => r matches Err(x) && x@ == e,
                Ok((items, rest)) => {
                    &&& r matches Ok(v)
                    &&& v@ == Json::Sequence(items)
                    &&& final(tokenizer)@ == rest
                    &&& rest.buffered is None
                    &&& rest.measure() < old(tokenizer)@.measure()
                },
            },
        decreases old(tokenizer)@.measure(), 2nat,
    {
        let mut vec: Vec<Value> = Vec::new();
        loop
            invariant
                tokenizer.wf(),
                tokenizer@.measure() <= old(tokenizer)@.measure(),
                parse_elements(old(tokenizer)@, Seq::empty(), self.limit()) == parse_elements(
                    tokenizer@,
                    models(vec@),
                    self.limit(),
                ),
            decreases tokenizer@.measure(),
        {
            proof {
                tokenizer.lemma_wf();
                lemma_next(tokenizer@);
            }
            let token = tokenizer.next()?;
            proof {
                tokenizer.lemma_wf();
            }
            match token {
                JsonToken::EndArray => {
                    return Ok(Value::Vec(vec));
                },
                other => {
                    tokenizer.push_back(other)?;
                    let val = self.parse_value_type(tokenizer)?;
                    proof {
                        lemma_models_push(vec@, val);
                    }
                    vec.push(val);
                },
            }
        }
    }

    /// The simple value that `token` stands for. A number is an integer
    /// where its text spells one that fits in 64 bits, else a float.
    pub fn parse_single_value(&self, token: &JsonToken) -> (r: Result<Value, JsonError>)
        ensures
            match scalar(token@) {
                Err(e) => r matches Err(x) && x@ == e,
                Ok(value) => r matches Ok(v) && v@ == value,
            },
    {
        match token {
            JsonToken::Null => Ok(Value::Null),
            JsonToken::False => Ok(Value::Bool(false)),
            JsonToken::True => Ok(Value::Bool(true)),
            JsonToken::StringValue(s) => Ok(Value::String(s.clone())),
            JsonToken::Number(num) => {
                let chars = chars_of(num.as_str());
                match parse_i64(&chars) {
                    Some(n) => Ok(Value::I64(n)),
                    None => {
                        let value = self.safe_parse_f64(num.as_str())?;
                        Ok(Value::F64(value))
                    },
                }
            },
            _ => Err(JsonError::NotAScalar(token.clone())),
        }
    }

    /// The float that `s` denotes, unless `s` is no number of the grammar
    /// or too large in magnitude to be finite.
    pub fn safe_parse_f64(&self, s: &str) -> (r: Result<Float, JsonError>)
        ensures
            match r {
                Ok(x) => x@ == s@ && is_json_number(s@) && !exceeds_finite(s@),
                Err(e) => !is_json_number(s@) && e@ == Failure::InvalidNumberText(s@)
                    || is_json_number(s@) && exceeds_finite(s@) && e@ == Failure::SpecialValue,
            },
    {
        Float::new(s)
    }
}

} // verus!
