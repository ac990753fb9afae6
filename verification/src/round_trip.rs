//! Writing a tree and reading the text again gives the tree back.
//!
//! The laws here speak of trees as the reader builds them, and of output
//! that is compact, as the writer's default settings give it, or indented
//! with whitespace.

use vstd::prelude::*;
use crate::grammar::{
    ends_number, hex_prefix, hex_value, int_part, is_digit, is_json_number,
    is_whitespace,
    lemma_scan_number_token,
    lemma_digit_count_is, lemma_number_shape, lemma_number_shape_extends, number_shape,
    prepend, scan_escape, scan_string, simple_escape, Lexer, NumberShape,
};
use crate::json_error::{Failure, Literal};
use crate::json_reader::{
    lemma_parse_value, lemma_skip_value_succeeds, parse_document, parse_elements, parse_members,
    parse_object, parse_value,
};
use crate::json_token::Token;
use crate::json_tokenizer::{lemma_next, lemma_open_objects_push, open_objects, TokenStream};
use crate::model::{
    has_key, index_of, insert, lemma_insert, merge_first, unique_keys, Entries, Json,
};
use crate::state::{ContainerType, State};
use crate::json_error::JsonError;
use crate::json_text_tokenizer::with_prefix;
use crate::json_writer::{
    entries_text, escape, escaped, hex_digit, integer_text, is_control_character, items_text,
    line_start, name_separator, object_text, quoted, separator, value_text,
};
use crate::number::{all_digits, digits_value, exceeds_finite, integer_of};
use crate::text::natural_text;

verus! {

/// A lower-case hex digit reads as its value.
proof fn lemma_hex_digit(n: int)
    requires
        0 <= n < 16,
    ensures
        hex_value(hex_digit(n)) == Some(n),
{
}

/// An escaped character, read as the start of a string, is the character.
pub proof fn lemma_scan_escape(c: char, rest: Seq<char>)
    ensures
        scan_string(escape(c) + rest) == prepend(c, scan_string(rest)),
{
    let s = escape(c) + rest;
    if c == '"' || c == '\\' || c == '\x08' || c == '\x0C' || c == '\n' || c == '\r' || c == '\t'
        || c == '/' {
        assert(s[0] == '\\');
        assert(s.drop_first()[0] == escape(c)[1]);
        assert(simple_escape(escape(c)[1]) == Some(c));
        assert(s.skip(2) =~= rest);
    } else if is_control_character(c) {
        let code = c as int;
        let t = s.drop_first();
        let h = t.drop_first();
        assert(s[0] == '\\');
        assert(t[0] == 'u');
        assert(h[0] == hex_digit((code / 4096) % 16));
        assert(h[1] == hex_digit((code / 256) % 16));
        assert(h[2] == hex_digit((code / 16) % 16));
        assert(h[3] == hex_digit(code % 16));
        lemma_hex_digit((code / 4096) % 16);
        lemma_hex_digit((code / 256) % 16);
        lemma_hex_digit((code / 16) % 16);
        lemma_hex_digit(code % 16);
        reveal_with_fuel(hex_prefix, 5);
        assert(hex_prefix(h, 4) == Ok::<int, JsonError>(code));
        assert(code as char == c);
        assert(scan_escape(t) == Ok::<(char, int), JsonError>((c, 5)));
        assert(s.skip(6) =~= rest);
    } else {
        assert(s[0] == c);
        assert(s.drop_first() =~= rest);
    }
}

/// Escaped text, read as the start of a string, is the text.
pub proof fn lemma_scan_escaped(text: Seq<char>, n: nat, rest: Seq<char>)
    requires
        n <= text.len(),
    ensures
        scan_string(escaped(text, n) + rest) == with_prefix(
            text.take(n as int),
            scan_string(rest),
        ),
    decreases n,
{
    if n == 0 {
        assert(escaped(text, 0) + rest =~= rest);
        assert(text.take(0) =~= Seq::<char>::empty());
        if let Ok((t, r)) = scan_string(rest) {
            assert(Seq::<char>::empty() + t =~= t);
        }
    } else {
        let c = text[n - 1];
        let before = (n - 1) as nat;
        lemma_scan_escaped(text, before, escape(c) + rest);
        lemma_scan_escape(c, rest);
        assert(escaped(text, n) + rest =~= escaped(text, before) + (escape(c) + rest));
        assert(text.take(n as int) =~= text.take(before as int).push(c));
        if let Ok((t, r)) = scan_string(rest) {
            assert(text.take(before as int) + (seq![c] + t) =~= text.take(before as int).push(c)
                + t);
        }
    }
}

/// A string as the writer writes it, read after its opening quote, is the
/// string, and what follows its closing quote is left.
pub proof fn lemma_scan_quoted(text: Seq<char>, rest: Seq<char>)
    ensures
        quoted(text) + rest == seq!['"'] + (quoted(text).drop_first() + rest),
        scan_string(quoted(text).drop_first() + rest) == Ok::<(Seq<char>, Seq<char>), JsonError>(
            (text, rest),
        ),
{
    let closing = seq!['"'] + rest;
    lemma_scan_escaped(text, text.len(), closing);
    assert(quoted(text).drop_first() + rest =~= escaped(text, text.len()) + closing);
    assert(quoted(text) + rest =~= seq!['"'] + (quoted(text).drop_first() + rest));
    assert(closing[0] == '"');
    assert(closing.drop_first() =~= rest);
    assert(text.take(text.len() as int) =~= text);
    assert(text + Seq::<char>::empty() =~= text);
}

/// The digits of a number are digits, they spell the number, and they
/// begin with a zero only where the number is zero.
pub proof fn lemma_natural_text(n: nat)
    ensures
        natural_text(n).len() >= 1,
        all_digits(natural_text(n)),
        digits_value(natural_text(n)) == n,
        natural_text(n)[0] == '0' <==> n == 0,
    decreases n,
{
    let t = natural_text(n);
    if n >= 10 {
        let high = natural_text(n / 10);
        lemma_natural_text(n / 10);
        assert(t.drop_last() =~= high);
        assert(t[0] == high[0]);
        assert forall|i: int| 0 <= i < t.len() implies is_digit(#[trigger] t[i]) by {
            if i < high.len() {
                assert(t[i] == high[i]);
            }
        }
    } else {
        assert(t.drop_last() =~= Seq::<char>::empty());
        assert(digits_value(t.drop_last()) == 0);
    }
}

/// An integer as the writer writes it is a number of the grammar, is its
/// own token text, and spells the integer.
pub proof fn lemma_integer_text(v: i64)
    ensures
        is_json_number(integer_text(v as int)),
        integer_of(integer_text(v as int)) == Some(v),
{
    let magnitude: nat = if v < 0 { (-v) as nat } else { v as nat };
    let digits = natural_text(magnitude);
    let t = integer_text(v as int);
    let sign: int = if v < 0 { 1 } else { 0 };
    lemma_natural_text(magnitude);
    assert(t.skip(sign) =~= digits);
    assert(t.len() == sign + digits.len());
    let tail = digits.drop_first();
    assert forall|i: int| 0 <= i < tail.len() implies is_digit(#[trigger] tail[i]) by {
        assert(tail[i] == digits[i + 1]);
    }
    lemma_digit_count_is(tail, tail.len() as int);
    assert(is_digit(digits[0]));
    if digits[0] == '0' {
        assert(natural_text(0).len() == 1);
    }
    assert(int_part(digits) == Ok::<int, JsonError>(digits.len() as int));
    assert(t.skip(sign + digits.len()) =~= Seq::<char>::empty());
    let shape = NumberShape { sign, int_len: digits.len() as int, frac_len: 0, exp_len: 0 };
    assert(number_shape(t) == Ok::<NumberShape, JsonError>(shape));
    assert(t.take(t.len() as int) =~= t);
    if v < 0 {
        assert(t.drop_first() =~= digits);
    }
}

/// Whether `s` holds whitespace only.
pub open spec fn is_blank(s: Seq<char>) -> bool {
    forall|i: int| 0 <= i < s.len() ==> is_whitespace(#[trigger] s[i])
}

/// The scanner `lexer` in the state `state` before the text `input`.
pub open spec fn before(lexer: Lexer, state: State, input: Seq<char>) -> Lexer {
    Lexer { state, stack: lexer.stack, input }
}

/// Whitespace before a token changes nothing.
pub proof fn lemma_scan_blank(lexer: Lexer, blank: Seq<char>, rest: Seq<char>)
    requires
        is_blank(blank),
        lexer.state != State::ReaderExhausted,
        lexer.input == blank + rest,
    ensures
        lexer.scan() == before(lexer, lexer.state, rest).scan(),
    decreases blank.len(),
{
    if blank.len() == 0 {
        assert(blank + rest =~= rest);
    } else {
        let shorter = blank.drop_first();
        assert(lexer.input[0] == blank[0]);
        assert(lexer.input.drop_first() =~= shorter + rest);
        assert(is_blank(shorter)) by {
            assert forall|i: int| 0 <= i < shorter.len() implies is_whitespace(
                #[trigger] shorter[i],
            ) by {
                assert(shorter[i] == blank[i + 1]);
            }
        }
        lemma_scan_blank(before(lexer, lexer.state, shorter + rest), shorter, rest);
    }
}

/// A colon after a name, and whitespace after it, lead to the value.
pub proof fn lemma_scan_colon(lexer: Lexer, blank: Seq<char>, rest: Seq<char>)
    requires
        lexer.state == State::ObjectBeforeColon,
        is_blank(blank),
        lexer.input == seq![':'] + (blank + rest),
    ensures
        lexer.scan() == before(lexer, State::ObjectAfterColon, rest).scan(),
{
    assert(lexer.input[0] == ':');
    assert(lexer.input.drop_first() =~= blank + rest);
    lemma_scan_blank(before(lexer, State::ObjectAfterColon, blank + rest), blank, rest);
}

/// A comma after a value, and whitespace after it, lead to the next value
/// or name.
pub proof fn lemma_scan_comma(lexer: Lexer, blank: Seq<char>, rest: Seq<char>)
    requires
        lexer.state == State::ObjectAfterProperty || lexer.state == State::ArrayAfterValue,
        is_blank(blank),
        lexer.input == seq![','] + (blank + rest),
    ensures
        lexer.scan() == before(
            lexer,
            if lexer.state == State::ObjectAfterProperty {
                State::ObjectAfterComma
            } else {
                State::ArrayAfterComma
            },
            rest,
        ).scan(),
{
    let next = if lexer.state == State::ObjectAfterProperty {
        State::ObjectAfterComma
    } else {
        State::ArrayAfterComma
    };
    assert(lexer.input[0] == ',');
    assert(lexer.input.drop_first() =~= blank + rest);
    lemma_scan_blank(before(lexer, next, blank + rest), blank, rest);
}

/// A bracket that opens a container, where a value may begin, is the
/// token that starts the container.
pub proof fn lemma_scan_open(lexer: Lexer, kind: ContainerType, rest: Seq<char>)
    requires
        lexer.state.accepts_value(),
        kind != ContainerType::Document,
        lexer.input == seq![if kind == ContainerType::Object {
            '{'
        } else {
            '['
        }] + rest,
    ensures
        lexer.scan() == Ok::<(Token, Lexer), JsonError>(
            (
                if kind == ContainerType::Object {
                    Token::StartObject
                } else {
                    Token::StartArray
                },
                lexer.opened(kind, rest),
            ),
        ),
{
    assert(lexer.input.drop_first() =~= rest);
}

/// A bracket that closes the innermost container, at its start or after a
/// value in it, is the token that ends the container.
pub proof fn lemma_scan_close(lexer: Lexer, rest: Seq<char>)
    requires
        lexer.state == State::ObjectAfterProperty || lexer.state == State::ObjectStart
            || lexer.state == State::ArrayAfterValue || lexer.state == State::ArrayStart,
        lexer.input == seq![if lexer.state.container() == ContainerType::Object {
            '}'
        } else {
            ']'
        }] + rest,
    ensures
        lexer.scan() == Ok::<(Token, Lexer), JsonError>(
            (
                if lexer.state.container() == ContainerType::Object {
                    Token::EndObject
                } else {
                    Token::EndArray
                },
                lexer.closed(rest),
            ),
        ),
{
    assert(lexer.input.drop_first() =~= rest);
}

/// A keyword, where a value may begin, is its token.
pub proof fn lemma_scan_keyword(lexer: Lexer, which: Literal, rest: Seq<char>)
    requires
        lexer.state.accepts_value(),
        lexer.input == which.text() + rest,
    ensures
        lexer.scan() == Ok::<(Token, Lexer), JsonError>(
            (which.token(), before(lexer, lexer.state.after_value(), rest)),
        ),
{
    let tail = which.text().drop_first();
    let after = lexer.input.drop_first();
    assert(after =~= tail + rest);
    assert(after.subrange(0, tail.len() as int) =~= tail);
    assert(after.skip(tail.len() as int) =~= rest);
    assert(lexer.input[0] == which.text()[0]);
}

/// A string as the writer writes it is a name where a name is due, and a
/// string value where a value may begin.
pub proof fn lemma_scan_text(lexer: Lexer, text: Seq<char>, rest: Seq<char>)
    requires
        lexer.state != State::ReaderExhausted,
        lexer.input == quoted(text) + rest,
    ensures
        lexer.state == State::ObjectStart || lexer.state == State::ObjectAfterComma
            ==> lexer.scan() == Ok::<(Token, Lexer), JsonError>(
            (Token::Name(text), before(lexer, State::ObjectBeforeColon, rest)),
        ),
        lexer.state.accepts_value() ==> lexer.scan() == Ok::<(Token, Lexer), JsonError>(
            (Token::StringValue(text), before(lexer, lexer.state.after_value(), rest)),
        ),
{
    lemma_scan_quoted(text, rest);
    assert(lexer.input[0] == '"');
    assert(lexer.input.drop_first() =~= quoted(text).drop_first() + rest);
}

/// A number of the grammar, where a value may begin and something follows
/// that ends the number, is the number token with that text.
pub proof fn lemma_scan_number(lexer: Lexer, text: Seq<char>, rest: Seq<char>)
    requires
        lexer.state.accepts_value(),
        is_json_number(text),
        ends_number(rest),
        lexer.input == text + rest,
    ensures
        lexer.scan() == Ok::<(Token, Lexer), JsonError>(
            (Token::Number(text), before(lexer, lexer.state.after_value(), rest)),
        ),
{
    lemma_number_shape_extends(text, rest);
    lemma_number_shape(text);
    let shape = number_shape(text)->Ok_0;
    assert(lexer.input[0] == text[0]);
    if shape.sign == 0 {
        assert(text.skip(0) =~= text);
        assert(is_digit(text[0]));
    }
}

/// Whether `value` is a tree as the reader builds it with room for `room`
/// more levels of objects: its floats are numbers of the grammar that spell
/// no 64-bit integer and are finite, the keys of each object differ, and objects
/// are nested no deeper than `room`.
pub open spec fn built(value: Json, room: int) -> bool
    decreases value,
{
    match value {
        Json::Float(text) => is_json_number(text) && integer_of(text) is None && !exceeds_finite(
            text,
        ),
        Json::Sequence(items) => forall|i: int|
            0 <= i < items.len() ==> built(#[trigger] items[i], room),
        Json::Object(entries) => room >= 1 && unique_keys(entries) && forall|i: int|
            0 <= i < entries.len() ==> built((#[trigger] entries[i]).1, room - 1),
        _ => true,
    }
}

/// The stream `stream` with nothing pushed back, its scanner in the state
/// `state` before the text `input`.
pub open spec fn reading(stream: TokenStream, state: State, input: Seq<char>) -> TokenStream {
    TokenStream { lexer: before(stream.lexer, state, input), buffered: None, depth: stream.depth }
}

/// Reading a value depends on the stream through its next token only.
proof fn lemma_parse_value_by_next(a: TokenStream, b: TokenStream, limit: usize)
    requires
        a.wf(),
        b.wf(),
        a.next() == b.next(),
    ensures
        parse_value(a, limit) == parse_value(b, limit),
{
}

/// Reading an object depends on the stream through its next token only.
proof fn lemma_parse_object_by_next(
    a: TokenStream,
    b: TokenStream,
    entries: Entries,
    limit: usize,
)
    requires
        a.wf(),
        b.wf(),
        a.next() == b.next(),
    ensures
        parse_object(a, entries, limit) == parse_object(b, entries, limit),
{
}

/// What begins a line is whitespace, and so is a margin one level deeper,
/// where the indentation and the margin are.
proof fn lemma_blank_line(indentation: Seq<char>, margin: Seq<char>)
    requires
        is_blank(indentation),
        is_blank(margin),
    ensures
        is_blank(line_start(indentation, margin)),
        is_blank(margin + indentation),
        is_blank(Seq::<char>::empty()),
        ends_number(line_start(indentation, margin) + seq![']']),
        ends_number(line_start(indentation, margin) + seq!['}']),
{
    let line = line_start(indentation, margin);
    assert forall|i: int| 0 <= i < line.len() implies is_whitespace(#[trigger] line[i]) by {
        if i >= 2 {
            assert(line[i] == margin[i - 2]);
        }
    }
    let deeper = margin + indentation;
    assert forall|i: int| 0 <= i < deeper.len() implies is_whitespace(#[trigger] deeper[i]) by {
        if i < margin.len() {
            assert(deeper[i] == margin[i]);
        } else {
            assert(deeper[i] == indentation[i - margin.len()]);
        }
    }
    assert((line + seq![']'])[0] == if line.len() > 0 { line[0] } else { ']' });
    assert((line + seq!['}'])[0] == if line.len() > 0 { line[0] } else { '}' });
}

/// A stream that moves on in the same container stays well formed.
proof fn lemma_reading_wf(stream: TokenStream, state: State, input: Seq<char>)
    requires
        stream.wf(),
        stream.buffered is None,
        state.container() == stream.lexer.state.container(),
    ensures
        reading(stream, state, input).wf(),
        reading(stream, state, input).buffered is None,
{
}

/// The text of a simple value is read back as the value.
proof fn lemma_read_scalar(
    value: Json,
    stream: TokenStream,
    rest: Seq<char>,
    limit: usize,
    indentation: Seq<char>,
    margin: Seq<char>,
)
    requires
        stream.wf(),
        stream.buffered is None,
        stream.lexer.state.accepts_value(),
        stream.lexer.input == value_text(value, indentation, margin) + rest,
        !(value is Sequence) && !(value is Object),
        built(value, limit - stream.depth),
        ends_number(rest),
    ensures
        parse_value(stream, limit) == Ok::<(Json, TokenStream), Failure>(
            (value, reading(stream, stream.lexer.state.after_value(), rest)),
        ),
{
    let lexer = stream.lexer;
    match value {
        Json::Null => {
            lemma_scan_keyword(lexer, Literal::Null, rest);
        },
        Json::Bool(b) => {
            if b {
                lemma_scan_keyword(lexer, Literal::True, rest);
            } else {
                lemma_scan_keyword(lexer, Literal::False, rest);
            }
        },
        Json::String(text) => {
            lemma_scan_text(lexer, text, rest);
        },
        Json::Integer(n) => {
            lemma_integer_text(n);
            lemma_scan_number(lexer, integer_text(n as int), rest);
        },
        Json::Float(text) => {
            lemma_scan_number(lexer, text, rest);
        },
        _ => {},
    }
}

/// The text of a value as the writer writes it with whitespace for
/// indentation, where a value may begin and something follows that ends
/// a number, is read back as the value, and the stream is left right after
/// it.
#[verifier::rlimit(40)]
pub proof fn lemma_read_value(
    value: Json,
    stream: TokenStream,
    rest: Seq<char>,
    limit: usize,
    indentation: Seq<char>,
    margin: Seq<char>,
)
    requires
        stream.wf(),
        stream.buffered is None,
        stream.lexer.state.accepts_value(),
        is_blank(indentation),
        is_blank(margin),
        stream.lexer.input == value_text(value, indentation, margin) + rest,
        built(value, limit - stream.depth),
        ends_number(rest),
    ensures
        parse_value(stream, limit) == Ok::<(Json, TokenStream), Failure>(
            (value, reading(stream, stream.lexer.state.after_value(), rest)),
        ),
    decreases value, 0nat,
{
    let lexer = stream.lexer;
    let done = reading(stream, lexer.state.after_value(), rest);
    match value {
        Json::Sequence(items) => {
            let n = items.len();
            let deeper = margin + indentation;
            let blank = closing_blank(n > 0, indentation, margin);
            let tail = blank + (seq![']'] + rest);
            let inner = items_text(items, n, indentation, deeper) + tail;
            lemma_array_text(items, rest, indentation, margin);
            lemma_blank_line(indentation, margin);
            let opened = opened_stream(stream, ContainerType::Array, inner);
            lemma_open_stream(stream, ContainerType::Array, inner);
            lemma_read_elements(items, n, opened, Seq::empty(), tail, limit, indentation, deeper);
            let last = reading(
                opened,
                if n == 0 {
                    State::ArrayStart
                } else {
                    State::ArrayAfterValue
                },
                tail,
            );
            lemma_close_stream(stream, ContainerType::Array, last, blank, rest);
            lemma_elements_end(last, items, done, limit);
        },
        Json::Object(entries) => {
            lemma_read_object(entries, stream, Seq::empty(), rest, limit, indentation, margin);
            lemma_merge_into_empty(entries, entries.len());
            assert(entries.take(entries.len() as int) =~= entries);
            lemma_next(stream);
            let opened = stream.next()->Ok_0.1;
            let again = opened.push_back(Token::StartObject)->Ok_0;
            lemma_parse_object_by_next(again, stream, Seq::empty(), limit);
        },
        _ => {
            lemma_read_scalar(value, stream, rest, limit, indentation, margin);
        },
    }
}

/// The whitespace before the bracket that closes a container.
pub open spec fn closing_blank(
    has_items: bool,
    indentation: Seq<char>,
    margin: Seq<char>,
) -> Seq<char> {
    if has_items {
        line_start(indentation, margin)
    } else {
        Seq::empty()
    }
}

/// The text of the first `n` items of an array, read from the start of
/// the array, is read as those items.
#[verifier::rlimit(40)]
proof fn lemma_read_elements(
    items: Seq<Json>,
    n: nat,
    stream: TokenStream,
    before_them: Seq<Json>,
    tail: Seq<char>,
    limit: usize,
    indentation: Seq<char>,
    margin: Seq<char>,
)
    requires
        n <= items.len(),
        stream.wf(),
        stream.buffered is None,
        stream.lexer.state == State::ArrayStart,
        is_blank(indentation),
        is_blank(margin),
        stream.lexer.input == items_text(items, n, indentation, margin) + tail,
        ends_number(tail),
        forall|i: int| 0 <= i < n ==> built(#[trigger] items[i], limit - stream.depth),
    ensures
        parse_elements(stream, before_them, limit) == parse_elements(
            reading(
                stream,
                if n == 0 {
                    State::ArrayStart
                } else {
                    State::ArrayAfterValue
                },
                tail,
            ),
            before_them + items.take(n as int),
            limit,
        ),
    decreases items, n,
{
    if n == 0 {
        lemma_items_split(items, n, tail, before_them, indentation, margin);
        assert(reading(stream, State::ArrayStart, tail) == stream);
    } else {
        let item = items[n - 1];
        let earlier = (n - 1) as nat;
        let line = line_start(indentation, margin);
        let ahead = value_text(item, indentation, margin) + tail;
        let joined = separator(n == 1) + (line + ahead);
        lemma_items_split(items, n, tail, before_them, indentation, margin);
        lemma_blank_line(indentation, margin);
        let from = reading(
            stream,
            if earlier == 0 {
                State::ArrayStart
            } else {
                State::ArrayAfterValue
            },
            joined,
        );
        if earlier > 0 {
            lemma_read_elements(
                items,
                earlier,
                stream,
                before_them,
                joined,
                limit,
                indentation,
                margin,
            );
        } else {
            lemma_items_split(items, 0, joined, before_them, indentation, margin);
            assert(from == stream);
        }
        let so_far = before_them + items.take(earlier as int);
        let at_item = reading(
            stream,
            if earlier == 0 {
                State::ArrayStart
            } else {
                State::ArrayAfterComma
            },
            ahead,
        );
        let after_item = reading(stream, State::ArrayAfterValue, tail);
        lemma_to_next(stream, from.lexer.state, at_item.lexer.state, earlier > 0, line, ahead);
        lemma_read_value(item, at_item, tail, limit, indentation, margin);
        assert(reading(at_item, at_item.lexer.state.after_value(), tail) == after_item);
        lemma_elements_step(from, at_item, after_item, item, so_far, limit);
    }
}

/// The text of `n` items, with `tail` after it, is that of the items
/// before the last, the separator, the start of a line and the last item
/// with `tail`; and the items are those before the last and the last.
proof fn lemma_items_split(
    items: Seq<Json>,
    n: nat,
    tail: Seq<char>,
    before_them: Seq<Json>,
    indentation: Seq<char>,
    margin: Seq<char>,
)
    requires
        n <= items.len(),
    ensures
        n == 0 ==> items_text(items, n, indentation, margin) + tail == tail && before_them
            + items.take(0) == before_them,
        n > 0 ==> items_text(items, n, indentation, margin) + tail == items_text(
            items,
            (n - 1) as nat,
            indentation,
            margin,
        ) + (separator(n == 1) + (line_start(indentation, margin) + (value_text(
            items[n - 1],
            indentation,
            margin,
        ) + tail))) && (before_them + items.take(n - 1)).push(items[n - 1]) == before_them
            + items.take(n as int),
        n > 1 ==> ends_number(
            separator(n == 1) + (line_start(indentation, margin) + (value_text(
                items[n - 1],
                indentation,
                margin,
            ) + tail)),
        ) && separator(n == 1) == seq![','],
        n == 1 ==> separator(n == 1) == Seq::<char>::empty(),
{
    if n == 0 {
        assert(items_text(items, 0, indentation, margin) + tail =~= tail);
        assert(before_them + items.take(0) =~= before_them);
    } else {
        let joined = separator(n == 1) + (line_start(indentation, margin) + (value_text(
            items[n - 1],
            indentation,
            margin,
        ) + tail));
        assert(items_text(items, n, indentation, margin) + tail =~= items_text(
            items,
            (n - 1) as nat,
            indentation,
            margin,
        ) + joined);
        assert((before_them + items.take(n - 1)).push(items[n - 1]) =~= before_them + items.take(
            n as int,
        ));
        if n > 1 {
            assert(joined[0] == ',');
        }
    }
}

/// From after an item or a property, or from the start of a container,
/// the stream yields the same next token as from after the comma and the
/// whitespace that follows it: neither is a token.
proof fn lemma_to_next(
    stream: TokenStream,
    from_state: State,
    at_state: State,
    comma: bool,
    blank: Seq<char>,
    ahead: Seq<char>,
)
    requires
        stream.wf(),
        stream.buffered is None,
        is_blank(blank),
        from_state.container() == stream.lexer.state.container(),
        comma ==> (from_state == State::ArrayAfterValue && at_state == State::ArrayAfterComma)
            || (from_state == State::ObjectAfterProperty && at_state
            == State::ObjectAfterComma),
        !comma ==> from_state == at_state && from_state != State::ReaderExhausted,
    ensures
        ({
            let from = reading(
                stream,
                from_state,
                if comma {
                    seq![','] + (blank + ahead)
                } else {
                    Seq::<char>::empty() + (blank + ahead)
                },
            );
            let at = reading(stream, at_state, ahead);
            &&& from.wf()
            &&& at.wf()
            &&& from.next() == at.next()
        }),
{
    let from = reading(
        stream,
        from_state,
        if comma {
            seq![','] + (blank + ahead)
        } else {
            Seq::<char>::empty() + (blank + ahead)
        },
    );
    if comma {
        lemma_scan_comma(from.lexer, blank, ahead);
    } else {
        assert(Seq::<char>::empty() + (blank + ahead) =~= blank + ahead);
        lemma_scan_blank(from.lexer, blank, ahead);
    }
}

/// Putting entries whose keys differ into an empty object, one after the
/// other, gives those entries.
proof fn lemma_merge_into_empty(entries: Entries, n: nat)
    requires
        unique_keys(entries),
        n <= entries.len(),
    ensures
        merge_first(Seq::empty(), entries, n) == entries.take(n as int),
    decreases n,
{
    if n == 0 {
        assert(entries.take(0) =~= Seq::<(Seq<char>, Json)>::empty());
    } else {
        lemma_merge_into_empty(entries, (n - 1) as nat);
        let earlier = entries.take(n - 1);
        let key = entries[n - 1].0;
        if has_key(earlier, key) {
            let i = index_of(earlier, key);
            assert(earlier[i] == entries[i]);
            assert(entries[i].0 != entries[n - 1].0);
        }
        assert(earlier.push((key, entries[n - 1].1)) =~= entries.take(n as int));
    }
}

/// The text of an object, where a value may begin, is read back as its
/// entries, put into the entries `into` one after the other.
#[verifier::rlimit(40)]
proof fn lemma_read_object(
    entries: Entries,
    stream: TokenStream,
    into: Entries,
    rest: Seq<char>,
    limit: usize,
    indentation: Seq<char>,
    margin: Seq<char>,
)
    requires
        stream.wf(),
        stream.buffered is None,
        stream.lexer.state.accepts_value(),
        is_blank(indentation),
        is_blank(margin),
        stream.lexer.input == value_text(Json::Object(entries), indentation, margin) + rest,
        built(Json::Object(entries), limit - stream.depth),
    ensures
        parse_object(stream, into, limit) == Ok::<(Entries, TokenStream), Failure>(
            (
                merge_first(into, entries, entries.len()),
                reading(stream, stream.lexer.state.after_value(), rest),
            ),
        ),
        stream.next() matches Ok((token, opened)) && token == Token::StartObject
            && opened.buffered is None && opened.depth > 0,
    decreases entries, entries.len() + 1,
{
    let lexer = stream.lexer;
    let done = reading(stream, lexer.state.after_value(), rest);
    let n = entries.len();
    let deeper = margin + indentation;
    let blank = closing_blank(n > 0, indentation, margin);
    let tail = blank + (seq!['}'] + rest);
    let inner = entries_text(entries, n, false, indentation, deeper) + tail;
    lemma_object_text(entries, rest, indentation, margin);
    lemma_blank_line(indentation, margin);
    let opened = opened_stream(stream, ContainerType::Object, inner);
    lemma_open_stream(stream, ContainerType::Object, inner);
    lemma_read_entries(entries, n, opened, into, tail, limit, indentation, deeper);
    let last = reading(
        opened,
        if n == 0 {
            State::ObjectStart
        } else {
            State::ObjectAfterProperty
        },
        tail,
    );
    lemma_close_stream(stream, ContainerType::Object, last, blank, rest);
    lemma_members_end(last, merge_first(into, entries, n), done, limit);
    lemma_object_start(stream, opened, into, limit);
}

/// The text of an object is its entries between braces, with whitespace
/// before the closing brace where there are entries.
proof fn lemma_object_text(
    entries: Entries,
    rest: Seq<char>,
    indentation: Seq<char>,
    margin: Seq<char>,
)
    ensures
        value_text(Json::Object(entries), indentation, margin) + rest == seq!['{'] + (
        entries_text(entries, entries.len(), false, indentation, margin + indentation) + (
        closing_blank(entries.len() > 0, indentation, margin) + (seq!['}'] + rest))),
        ends_number(closing_blank(entries.len() > 0, indentation, margin) + (seq!['}'] + rest)),
{
    let blank = closing_blank(entries.len() > 0, indentation, margin);
    assert(value_text(Json::Object(entries), indentation, margin) + rest =~= seq!['{'] + (
    entries_text(entries, entries.len(), false, indentation, margin + indentation) + (blank + (
    seq!['}'] + rest))));
    assert((blank + (seq!['}'] + rest))[0] == if blank.len() > 0 { '\r' } else { '}' });
}

/// The text of an array is its items between brackets, with whitespace
/// before the closing bracket where there are items.
proof fn lemma_array_text(
    items: Seq<Json>,
    rest: Seq<char>,
    indentation: Seq<char>,
    margin: Seq<char>,
)
    ensures
        value_text(Json::Sequence(items), indentation, margin) + rest == seq!['['] + (
        items_text(items, items.len(), indentation, margin + indentation) + (closing_blank(
            items.len() > 0,
            indentation,
            margin,
        ) + (seq![']'] + rest))),
        ends_number(closing_blank(items.len() > 0, indentation, margin) + (seq![']'] + rest)),
        Seq::<Json>::empty() + items.take(items.len() as int) == items,
{
    let blank = closing_blank(items.len() > 0, indentation, margin);
    assert(value_text(Json::Sequence(items), indentation, margin) + rest =~= seq!['['] + (
    items_text(items, items.len(), indentation, margin + indentation) + (blank + (seq![']']
        + rest))));
    assert((blank + (seq![']'] + rest))[0] == if blank.len() > 0 { '\r' } else { ']' });
    assert(Seq::<Json>::empty() + items.take(items.len() as int) =~= items);
}

/// The stream inside a container of kind `kind` that opens before `inner`.
pub open spec fn opened_stream(
    stream: TokenStream,
    kind: ContainerType,
    inner: Seq<char>,
) -> TokenStream {
    TokenStream {
        lexer: stream.lexer.opened(kind, inner),
        buffered: None,
        depth: if kind == ContainerType::Object {
            stream.depth + 1
        } else {
            stream.depth
        },
    }
}

/// A bracket that opens a container, where a value may begin, takes the
/// stream into the container.
proof fn lemma_open_stream(stream: TokenStream, kind: ContainerType, inner: Seq<char>)
    requires
        stream.wf(),
        stream.buffered is None,
        stream.lexer.state.accepts_value(),
        kind != ContainerType::Document,
        stream.lexer.input == seq![if kind == ContainerType::Object {
            '{'
        } else {
            '['
        }] + inner,
    ensures
        stream.next() == Ok::<(Token, TokenStream), JsonError>(
            (
                if kind == ContainerType::Object {
                    Token::StartObject
                } else {
                    Token::StartArray
                },
                opened_stream(stream, kind, inner),
            ),
        ),
        opened_stream(stream, kind, inner).wf(),
{
    lemma_scan_open(stream.lexer, kind, inner);
    lemma_next(stream);
}

/// The bracket that closes a container, after whitespace or none, takes
/// the stream back out of it, to where a value has just been read.
proof fn lemma_close_stream(
    stream: TokenStream,
    kind: ContainerType,
    last: TokenStream,
    blank: Seq<char>,
    rest: Seq<char>,
)
    requires
        stream.wf(),
        stream.buffered is None,
        stream.lexer.state.accepts_value(),
        kind != ContainerType::Document,
        is_blank(blank),
        last.buffered is None,
        last.lexer.stack == stream.lexer.stack.push(kind),
        last.depth == if kind == ContainerType::Object {
            stream.depth + 1
        } else {
            stream.depth
        },
        last.lexer.state.container() == kind,
        last.lexer.state == State::ObjectAfterProperty || last.lexer.state == State::ObjectStart
            || last.lexer.state == State::ArrayAfterValue || last.lexer.state
            == State::ArrayStart,
        last.lexer.input == blank + (seq![if kind == ContainerType::Object {
            '}'
        } else {
            ']'
        }] + rest),
    ensures
        last.wf(),
        last.next() == Ok::<(Token, TokenStream), JsonError>(
            (
                if kind == ContainerType::Object {
                    Token::EndObject
                } else {
                    Token::EndArray
                },
                reading(stream, stream.lexer.state.after_value(), rest),
            ),
        ),
{
    let bracket = seq![if kind == ContainerType::Object {
        '}'
    } else {
        ']'
    }] + rest;
    lemma_open_objects_push(stream.lexer.stack, kind);
    lemma_scan_blank(last.lexer, blank, bracket);
    lemma_scan_close(before(last.lexer, last.lexer.state, bracket), rest);
    assert(last.lexer.stack.drop_last() =~= stream.lexer.stack);
}

/// At the end of an array the items read are the items.
proof fn lemma_elements_end(last: TokenStream, items: Seq<Json>, done: TokenStream, limit: usize)
    requires
        last.wf(),
        last.next() == Ok::<(Token, TokenStream), JsonError>((Token::EndArray, done)),
    ensures
        parse_elements(last, items, limit) == Ok::<(Seq<Json>, TokenStream), Failure>(
            (items, done),
        ),
{
}

/// At the end of an object the entries read are the entries.
proof fn lemma_members_end(last: TokenStream, entries: Entries, done: TokenStream, limit: usize)
    requires
        last.wf(),
        last.next() == Ok::<(Token, TokenStream), JsonError>((Token::EndObject, done)),
    ensures
        parse_members(last, entries, limit) == Ok::<(Entries, TokenStream), Failure>(
            (entries, done),
        ),
{
}

/// An object that starts within the limit goes on with its properties.
proof fn lemma_object_start(
    stream: TokenStream,
    opened: TokenStream,
    into: Entries,
    limit: usize,
)
    requires
        stream.wf(),
        stream.next() == Ok::<(Token, TokenStream), JsonError>((Token::StartObject, opened)),
        opened.depth <= limit,
    ensures
        parse_object(stream, into, limit) == parse_members(opened, into, limit),
{
    lemma_next(stream);
}

/// The text of the first `n` entries of an object, read from the start of
/// the object, is read as those entries.
#[verifier::rlimit(40)]
proof fn lemma_read_entries(
    entries: Entries,
    n: nat,
    stream: TokenStream,
    into: Entries,
    tail: Seq<char>,
    limit: usize,
    indentation: Seq<char>,
    margin: Seq<char>,
)
    requires
        n <= entries.len(),
        stream.wf(),
        stream.buffered is None,
        stream.lexer.state == State::ObjectStart,
        is_blank(indentation),
        is_blank(margin),
        stream.lexer.input == entries_text(entries, n, false, indentation, margin) + tail,
        ends_number(tail),
        forall|i: int| 0 <= i < n ==> built((#[trigger] entries[i]).1, limit - stream.depth),
    ensures
        parse_members(stream, into, limit) == parse_members(
            reading(
                stream,
                if n == 0 {
                    State::ObjectStart
                } else {
                    State::ObjectAfterProperty
                },
                tail,
            ),
            merge_first(into, entries, n),
            limit,
        ),
    decreases entries, n,
{
    if n == 0 {
        lemma_entries_split(entries, n, tail, indentation, margin);
        assert(reading(stream, State::ObjectStart, tail) == stream);
    } else {
        let key = entries[n - 1].0;
        let value = entries[n - 1].1;
        let earlier = (n - 1) as nat;
        let line = line_start(indentation, margin);
        let gap = name_gap(indentation);
        let valued = value_text(value, indentation, margin) + tail;
        let named = quoted(key) + (seq![':'] + (gap + valued));
        let joined = separator(n == 1) + (line + named);
        lemma_entries_split(entries, n, tail, indentation, margin);
        lemma_blank_line(indentation, margin);
        let from = reading(
            stream,
            if earlier == 0 {
                State::ObjectStart
            } else {
                State::ObjectAfterProperty
            },
            joined,
        );
        if earlier > 0 {
            lemma_read_entries(entries, earlier, stream, into, joined, limit, indentation, margin);
        } else {
            lemma_entries_split(entries, 0, joined, indentation, margin);
            assert(from == stream);
        }
        let so_far = merge_first(into, entries, earlier);
        let at_name = reading(
            stream,
            if earlier == 0 {
                State::ObjectStart
            } else {
                State::ObjectAfterComma
            },
            named,
        );
        lemma_to_next(stream, from.lexer.state, at_name.lexer.state, earlier > 0, line, named);
        lemma_scan_text(at_name.lexer, key, seq![':'] + (gap + valued));
        let at_colon = reading(stream, State::ObjectBeforeColon, seq![':'] + (gap + valued));
        let at_value = reading(stream, State::ObjectAfterColon, valued);
        lemma_reading_wf(stream, State::ObjectBeforeColon, seq![':'] + (gap + valued));
        lemma_reading_wf(stream, State::ObjectAfterColon, valued);
        lemma_scan_colon(at_colon.lexer, gap, valued);
        lemma_parse_value_by_next(at_colon, at_value, limit);
        let after_value = reading(stream, State::ObjectAfterProperty, tail);
        lemma_read_value(value, at_value, tail, limit, indentation, margin);
        assert(reading(at_value, at_value.lexer.state.after_value(), tail) == after_value);
        lemma_members_step(from, at_colon, after_value, key, value, so_far, limit);
    }
}

/// The whitespace between the colon after a name and the value.
pub open spec fn name_gap(indentation: Seq<char>) -> Seq<char> {
    if indentation.len() == 0 {
        Seq::empty()
    } else {
        seq![' ']
    }
}

/// The text of `n` entries, with `tail` after it, is that of the entries
/// before the last, the separator, the start of a line, and the name, the
/// colon and the value of the last entry with `tail`.
proof fn lemma_entries_split(
    entries: Entries,
    n: nat,
    tail: Seq<char>,
    indentation: Seq<char>,
    margin: Seq<char>,
)
    requires
        n <= entries.len(),
    ensures
        is_blank(name_gap(indentation)),
        n == 0 ==> entries_text(entries, n, false, indentation, margin) + tail == tail,
        n > 0 ==> entries_text(entries, n, false, indentation, margin) + tail == entries_text(
            entries,
            (n - 1) as nat,
            false,
            indentation,
            margin,
        ) + (separator(n == 1) + (line_start(indentation, margin) + (quoted(entries[n - 1].0) + (
        seq![':'] + (name_gap(indentation) + (value_text(entries[n - 1].1, indentation, margin)
            + tail)))))),
        n > 1 ==> ends_number(
            separator(n == 1) + (line_start(indentation, margin) + (quoted(entries[n - 1].0) + (
            seq![':'] + (name_gap(indentation) + (value_text(
                entries[n - 1].1,
                indentation,
                margin,
            ) + tail))))),
        ) && separator(n == 1) == seq![','],
        n == 1 ==> separator(n == 1) == Seq::<char>::empty(),
{
    if n == 0 {
        assert(entries_text(entries, 0, false, indentation, margin) + tail =~= tail);
    } else {
        let joined = separator(n == 1) + (line_start(indentation, margin) + (quoted(
            entries[n - 1].0,
        ) + (seq![':'] + (name_gap(indentation) + (value_text(
            entries[n - 1].1,
            indentation,
            margin,
        ) + tail)))));
        assert(name_separator(indentation) =~= seq![':'] + name_gap(indentation));
        assert(entries_text(entries, n, false, indentation, margin) + tail =~= entries_text(
            entries,
            (n - 1) as nat,
            false,
            indentation,
            margin,
        ) + joined);
        if n > 1 {
            assert(joined[0] == ',');
        }
    }
}

/// One item of an array: where the stream yields the token that a value
/// begins with, and the value is read from there, the items go on after
/// the value with the value among them.
proof fn lemma_elements_step(
    from: TokenStream,
    at_item: TokenStream,
    after_item: TokenStream,
    item: Json,
    so_far: Seq<Json>,
    limit: usize,
)
    requires
        from.wf(),
        from.buffered is None,
        at_item.wf(),
        from.next() == at_item.next(),
        parse_value(at_item, limit) == Ok::<(Json, TokenStream), Failure>((item, after_item)),
    ensures
        parse_elements(from, so_far, limit) == parse_elements(
            after_item,
            so_far.push(item),
            limit,
        ),
{
    lemma_next(from);
    let (token, after) = from.next()->Ok_0;
    let again = after.push_back(token)->Ok_0;
    assert(again.next() == from.next());
    lemma_parse_value_by_next(again, at_item, limit);
    lemma_parse_value(again, limit);
}

/// One property of an object: where the stream yields a name, and the
/// value is read after it, the properties go on after the value with the
/// value put in under the name.
proof fn lemma_members_step(
    from: TokenStream,
    at_colon: TokenStream,
    after_value: TokenStream,
    key: Seq<char>,
    value: Json,
    so_far: Entries,
    limit: usize,
)
    requires
        from.wf(),
        from.buffered is None,
        at_colon.wf(),
        from.next() == Ok::<(Token, TokenStream), JsonError>((Token::Name(key), at_colon)),
        parse_value(at_colon, limit) == Ok::<(Json, TokenStream), Failure>(
            (value, after_value),
        ),
    ensures
        parse_members(from, so_far, limit) == parse_members(
            after_value,
            insert(so_far, key, value),
            limit,
        ),
{
    lemma_next(from);
    lemma_parse_value(at_colon, limit);
}

/// A tree as the reader builds it, written with whitespace for
/// indentation, or none, and read again, is the same tree.
pub proof fn lemma_round_trip(entries: Entries, limit: usize, indentation: Seq<char>)
    requires
        built(Json::Object(entries), limit as int),
        is_blank(indentation),
    ensures
        parse_document(object_text(entries, indentation, Seq::empty()), limit) == Ok::<
            Entries,
            Failure,
        >(entries),
{
    let text = object_text(entries, indentation, Seq::empty());
    let start = TokenStream::start(text);
    let rest = Seq::<char>::empty();
    assert(text =~= value_text(Json::Object(entries), indentation, Seq::empty()) + rest);
    assert(open_objects(start.lexer.stack) == 0) by {
        reveal_with_fuel(open_objects, 2);
        assert(start.lexer.stack.drop_last() =~= Seq::<ContainerType>::empty());
    }
    lemma_read_object(entries, start, Seq::empty(), rest, limit, indentation, Seq::empty());
    lemma_merge_into_empty(entries, entries.len());
    assert(entries.take(entries.len() as int) =~= entries);
    let done = reading(start, State::ExpectedEndOfDocument, rest);
    assert(done.next() matches Ok((token, _)) && token is EndDocument);
}

/// Whether a token that was pushed back is one that a scanner yields: a
/// number token holds a number of the grammar.
pub open spec fn from_scanner(stream: TokenStream) -> bool {
    stream.buffered matches Some(Token::Number(text)) ==> is_json_number(text)
}

/// Whether `entries` are those of an object under construction by the
/// reader with room for `room` more levels of objects inside it.
pub open spec fn built_entries(entries: Entries, room: int) -> bool {
    unique_keys(entries) && forall|i: int|
        0 <= i < entries.len() ==> built((#[trigger] entries[i]).1, room)
}

/// One more built value under a key leaves the entries built.
proof fn lemma_built_insert(entries: Entries, key: Seq<char>, value: Json, room: int)
    requires
        built_entries(entries, room),
        built(value, room),
    ensures
        built_entries(insert(entries, key, value), room),
{
    lemma_insert(entries, key, value);
    let after = insert(entries, key, value);
    assert forall|i: int| 0 <= i < after.len() implies built((#[trigger] after[i]).1, room) by {
        if has_key(entries, key) {
            if i != index_of(entries, key) {
                assert(after[i] == entries[i]);
            }
        } else {
            if i < entries.len() {
                assert(after[i] == entries[i]);
            }
        }
    }
}

/// What the stream hands out came from a scanner, if what was pushed back
/// did.
proof fn lemma_next_from_scanner(stream: TokenStream)
    requires
        stream.wf(),
        from_scanner(stream),
    ensures
        stream.next() matches Ok((token, after)) ==> (token matches Token::Number(text)
            ==> is_json_number(text)),
{
    if stream.buffered is None {
        lemma_scan_number_token(stream.lexer);
    }
}

/// A value that the reader reads is a built tree, with room for the
/// levels of objects that the limit leaves at the depth of the stream.
pub proof fn lemma_built_value(stream: TokenStream, limit: usize)
    requires
        stream.wf(),
        from_scanner(stream),
    ensures
        parse_value(stream, limit) matches Ok((value, rest)) ==> built(
            value,
            limit - stream.depth,
        ),
    decreases stream.measure(), 1nat,
{
    lemma_next(stream);
    lemma_next_from_scanner(stream);
    if let Ok((token, after)) = stream.next() {
        match token {
            Token::StartArray => {
                lemma_built_elements(after, Seq::empty(), limit);
            },
            Token::StartObject => {
                let again = after.push_back(token)->Ok_0;
                lemma_built_object(again, Seq::empty(), limit);
            },
            _ => {},
        }
    }
}

/// [`lemma_built_value`] for the values of an array.
proof fn lemma_built_elements(stream: TokenStream, items: Seq<Json>, limit: usize)
    requires
        stream.wf(),
        from_scanner(stream),
        forall|i: int| 0 <= i < items.len() ==> built(#[trigger] items[i], limit - stream.depth),
    ensures
        parse_elements(stream, items, limit) matches Ok((all, rest)) ==> forall|i: int|
            0 <= i < all.len() ==> built(#[trigger] all[i], limit - stream.depth),
    decreases stream.measure(), 2nat,
{
    lemma_next(stream);
    lemma_next_from_scanner(stream);
    if let Ok((token, after)) = stream.next() {
        if !(token is EndArray) {
            let again = after.push_back(token)->Ok_0;
            assert(again.wf());
            lemma_parse_value(again, limit);
            lemma_built_value(again, limit);
            if let Ok((item, rest)) = parse_value(again, limit) {
                let more = items.push(item);
                assert forall|i: int| 0 <= i < more.len() implies built(
                    #[trigger] more[i],
                    limit - rest.depth,
                ) by {
                    if i < items.len() {
                        assert(more[i] == items[i]);
                    }
                }
                lemma_built_elements(rest, more, limit);
            }
        }
    }
}

/// [`lemma_built_value`] for an object.
proof fn lemma_built_object(stream: TokenStream, entries: Entries, limit: usize)
    requires
        stream.wf(),
        from_scanner(stream),
        built_entries(entries, limit - stream.depth - 1),
    ensures
        parse_object(stream, entries, limit) matches Ok((all, rest)) ==> built(
            Json::Object(all),
            limit - stream.depth,
        ),
    decreases stream.measure(), 0nat,
{
    lemma_next(stream);
    if let Ok((token, after)) = stream.next() {
        if token is StartObject && after.depth <= limit {
            lemma_built_members(after, entries, limit);
        }
    }
}

/// [`lemma_built_value`] for the properties of an object.
proof fn lemma_built_members(stream: TokenStream, entries: Entries, limit: usize)
    requires
        stream.wf(),
        from_scanner(stream),
        built_entries(entries, limit - stream.depth),
    ensures
        parse_members(stream, entries, limit) matches Ok((all, rest)) ==> built_entries(
            all,
            limit - stream.depth,
        ),
    decreases stream.measure(), 0nat,
{
    lemma_next(stream);
    if let Ok((token, after)) = stream.next() {
        if let Token::Name(name) = token {
            lemma_parse_value(after, limit);
            lemma_built_value(after, limit);
            if let Ok((value, rest)) = parse_value(after, limit) {
                lemma_built_insert(entries, name, value, limit - stream.depth);
                lemma_built_members(rest, insert(entries, name, value), limit);
            }
        }
    }
}

/// Round-trip stability: the tree that the reader builds from a text,
/// written with the default settings, or with any indentation of
/// whitespace, and read again, is the same tree.
pub proof fn lemma_round_trip_of_parsed(text: Seq<char>, limit: usize, indentation: Seq<char>)
    requires
        is_blank(indentation),
    ensures
        parse_document(text, limit) matches Ok(entries) ==> parse_document(
            object_text(entries, indentation, Seq::empty()),
            limit,
        ) == Ok::<Entries, Failure>(entries),
{
    let start = TokenStream::start(text);
    assert(open_objects(start.lexer.stack) == 0) by {
        reveal_with_fuel(open_objects, 2);
        assert(start.lexer.stack.drop_last() =~= Seq::<ContainerType>::empty());
    }
    let none = Seq::<(Seq<char>, Json)>::empty();
    assert(built_entries(none, limit - 1));
    lemma_built_object(start, none, limit);
    if let Ok(entries) = parse_document(text, limit) {
        lemma_round_trip(entries, limit, indentation);
    }
}

/// Skipping the value of a property lands on the name of the next one:
/// after a name, with the colon, any value as the writer writes it, a
/// comma and the next name ahead, skipping succeeds, leaves the depth and
/// the open containers as they were, and the next token is that name.
pub proof fn lemma_skip_written_value(
    stream: TokenStream,
    value: Json,
    name: Seq<char>,
    gap: Seq<char>,
    blank: Seq<char>,
    rest: Seq<char>,
    limit: usize,
    indentation: Seq<char>,
    margin: Seq<char>,
)
    requires
        stream.wf(),
        stream.buffered is None,
        stream.lexer.state == State::ObjectBeforeColon,
        is_blank(gap),
        is_blank(blank),
        is_blank(indentation),
        is_blank(margin),
        built(value, limit - stream.depth),
        stream.lexer.input == seq![':'] + (gap + (value_text(value, indentation, margin) + (seq![
            ',',
        ] + (blank + (quoted(name) + rest))))),
    ensures
        stream.skip_value() matches Ok(after) && {
            &&& after.depth == stream.depth
            &&& after.lexer.stack == stream.lexer.stack
            &&& after.buffered is None
            &&& after.next() matches Ok((token, _))
            &&& token == Token::Name(name)
        },
{
    let named = quoted(name) + rest;
    let tail = seq![','] + (blank + named);
    let valued = value_text(value, indentation, margin) + tail;
    let at_value = reading(stream, State::ObjectAfterColon, valued);
    let after_value = reading(stream, State::ObjectAfterProperty, tail);
    assert(tail[0] == ',');
    lemma_reading_wf(stream, State::ObjectAfterColon, valued);
    lemma_reading_wf(stream, State::ObjectAfterProperty, tail);
    lemma_scan_colon(stream.lexer, gap, valued);
    assert(stream.next() == at_value.next());
    lemma_read_value(value, at_value, tail, limit, indentation, margin);
    assert(reading(at_value, at_value.lexer.state.after_value(), tail) == after_value);
    lemma_parse_value_by_next(stream, at_value, limit);
    lemma_skip_value_succeeds(stream, limit);
    lemma_scan_comma(after_value.lexer, blank, named);
    lemma_scan_text(before(after_value.lexer, State::ObjectAfterComma, named), name, rest);
}

} // verus!
