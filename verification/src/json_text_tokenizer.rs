//! The scanner: from characters to tokens, one grammar state at a time.

use vstd::prelude::*;
use vstd::string::StrSliceExecFns;
use crate::grammar::{
    digit_count, exp_part, frac_part, hex_prefix, int_part, is_digit, number_shape,
    number_text, prepend, scan_escape, scan_literal, scan_number, scan_string, unit_char, Lexer,
    NumberShape,
};
use crate::json_error::{JsonError, Literal, Symbol};
use crate::json_token::JsonToken;
use crate::push_back_reader::PushBackReader;
use crate::state::{ContainerType, State};
use crate::text::{char_from_u32, push_char};

verus! {

/// The character that follows the first `n` characters of `s`, if any.
pub open spec fn lookahead(s: Seq<char>, n: int) -> Option<char> {
    if 0 <= n < s.len() {
        Some(s[n])
    } else {
        None
    }
}

/// What is left of `s` once its first `n` characters and the one after them
/// have been read.
pub open spec fn after_lookahead(s: Seq<char>, n: int) -> Seq<char> {
    if 0 <= n < s.len() {
        s.skip(n + 1)
    } else {
        Seq::empty()
    }
}

/// The scanner: reads characters, keeps the grammar state and the open
/// containers, and yields one token per call.
pub struct JsonTextTokenizer {
    container_stack: Vec<ContainerType>,
    reader: PushBackReader,
    state: State,
}

impl View for JsonTextTokenizer {
    type V = Lexer;

    closed spec fn view(&self) -> Lexer {
        Lexer {
            state: self.state,
            stack: self.container_stack@,
            input: self.reader.remaining(),
        }
    }
}

impl JsonTextTokenizer {
    /// The cursor is sound and the state fits the open containers.
    pub closed spec fn wf(&self) -> bool {
        self.reader.wf() && self@.wf()
    }

    /// Whether the cursor holds a pushed-back character.
    pub closed spec fn has_pending(&self) -> bool {
        self.reader.has_pending()
    }

    /// A well-formed scanner is well formed as a value, and its open
    /// containers fit in memory.
    pub proof fn lemma_wf(&self)
        requires
            self.wf(),
        ensures
            self@.wf(),
            self@.stack.len() <= usize::MAX,
    {
        assert(self.container_stack.len() == self.container_stack@.len());
    }

    /// A scanner before the first character of `input`.
    pub fn new(input: &str) -> (r: Self)
        ensures
            r.wf(),
            !r.has_pending(),
            r@ == Lexer::start(input@),
    {
        let mut container_stack: Vec<ContainerType> = Vec::new();
        container_stack.push(ContainerType::Document);
        let reader = PushBackReader::new(input);
        let state = State::StartOfDocument;
        let r = JsonTextTokenizer { container_stack, reader, state };
        assert(r@.stack =~= seq![ContainerType::Document]);
        r
    }

    /// The next token of the text. Skips whitespace, and checks and follows
    /// the colons and commas between tokens, until a token is complete.
    #[verifier::rlimit(50)]
    pub fn next_impl(&mut self) -> (r: Result<JsonToken, JsonError>)
        requires
            old(self).wf(),
        ensures
            final(self).wf(),
            r is Err ==> final(self)@.stack == old(self)@.stack,
            match old(self)@.scan() {
                Err(e) => r == Err::<JsonToken, JsonError>(e),
                Ok((token, lexer)) => {
                    &&& r matches Ok(t)
                    &&& t@ == token
                    &&& final(self)@ == lexer
                },
            },
    {
        if self.state == State::ReaderExhausted {
            return Err(JsonError::NextAfterEndOfDocument);
        }
        loop
            invariant
                self.wf(),
                self@.state != State::ReaderExhausted,
                self@.stack == old(self)@.stack,
                old(self)@.scan() == self@.scan_from(),
            decreases self@.input.len(),
        {
            let ghost cur = self@;
            let next = match self.reader.read_char() {
                Some(c) => c,
                None => {
                    self.validate_end_of_document()?;
                    self.state = State::ReaderExhausted;
                    return Ok(JsonToken::EndDocument);
                },
            };
            proof {
                assert(seq![next] + cur.input.drop_first() =~= cur.input);
            }
            match next {
                ' ' | '\t' | '\r' | '\n' => {},
                ':' => {
                    let allowed = [State::ObjectBeforeColon];
                    self.validate_state(&allowed, Symbol::Colon)?;
                    self.state = State::ObjectAfterColon;
                },
                ',' => {
                    let allowed = [State::ObjectAfterProperty, State::ArrayAfterValue];
                    assert(allowed@[0] == State::ObjectAfterProperty && allowed@[1]
                        == State::ArrayAfterValue);
                    self.validate_state(&allowed, Symbol::Comma)?;
                    self.state = if self.state == State::ObjectAfterProperty {
                        State::ObjectAfterComma
                    } else {
                        State::ArrayAfterComma
                    };
                },
                '"' => {
                    let string_value = self.read_string()?;
                    return if self.state == State::ObjectStart || self.state
                        == State::ObjectAfterComma {
                        self.state = State::ObjectBeforeColon;
                        Ok(JsonToken::Name(string_value))
                    } else {
                        self.validate_and_modify_state_for_value(Symbol::DoubleQuote)?;
                        Ok(JsonToken::StringValue(string_value))
                    };
                },
                '{' => {
                    self.validate_value_state(Symbol::OpenBrace)?;
                    self.state = State::ObjectStart;
                    self.container_stack.push(ContainerType::Object);
                    return Ok(JsonToken::StartObject);
                },
                '}' => {
                    let allowed = [State::ObjectAfterProperty, State::ObjectStart];
                    assert(allowed@[0] == State::ObjectAfterProperty && allowed@[1]
                        == State::ObjectStart);
                    self.validate_state(&allowed, Symbol::CloseBrace)?;
                    self.pop_container();
                    return Ok(JsonToken::EndObject);
                },
                '[' => {
                    self.validate_value_state(Symbol::OpenBracket)?;
                    self.state = State::ArrayStart;
                    self.container_stack.push(ContainerType::Array);
                    return Ok(JsonToken::StartArray);
                },
                ']' => {
                    let allowed = [State::ArrayAfterValue, State::ArrayStart];
                    assert(allowed@[0] == State::ArrayAfterValue && allowed@[1]
                        == State::ArrayStart);
                    self.validate_state(&allowed, Symbol::CloseBracket)?;
                    self.pop_container();
                    return Ok(JsonToken::EndArray);
                },
                'n' => {
                    self.consume_literal(Literal::Null)?;
                    self.validate_and_modify_state_for_value(Symbol::NullLiteral)?;
                    return Ok(JsonToken::Null);
                },
                't' => {
                    self.consume_literal(Literal::True)?;
                    self.validate_and_modify_state_for_value(Symbol::TrueLiteral)?;
                    return Ok(JsonToken::True);
                },
                'f' => {
                    self.consume_literal(Literal::False)?;
                    self.validate_and_modify_state_for_value(Symbol::FalseLiteral)?;
                    return Ok(JsonToken::False);
                },
                '-' | '0' | '1' | '2' | '3' | '4' | '5' | '6' | '7' | '8' | '9' => {
                    let number = self.read_number(next)?;
                    self.validate_and_modify_state_for_value(Symbol::Number)?;
                    return Ok(JsonToken::Number(number));
                },
                _ => {
                    return Err(JsonError::InvalidFirstCharacter(next));
                },
            }
        }
    }

    /// Checks that the text may end here.
    fn validate_end_of_document(&self) -> (r: Result<(), JsonError>)
        ensures
            r == if self@.state == State::ExpectedEndOfDocument {
                Ok::<(), JsonError>(())
            } else {
                Err::<(), JsonError>(JsonError::UnexpectedEndOfDocument(self@.state))
            },
    {
        if self.state == State::ExpectedEndOfDocument {
            Ok(())
        } else {
            Err(JsonError::UnexpectedEndOfDocument(self.state))
        }
    }

    /// Checks that the state is one of `allowed`, the states in which
    /// `symbol` may stand.
    fn validate_state(&self, allowed: &[State], symbol: Symbol) -> (r: Result<(), JsonError>)
        ensures
            r == if allowed@.contains(self@.state) {
                Ok::<(), JsonError>(())
            } else {
                Err::<(), JsonError>(JsonError::InvalidState(symbol, self@.state))
            },
    {
        let mut i: usize = 0;
        while i < allowed.len()
            invariant
                i <= allowed.len(),
                forall|j: int| 0 <= j < i ==> allowed@[j] != self.state,
            decreases allowed.len() - i,
        {
            if allowed[i] == self.state {
                return Ok(());
            }
            i = i + 1;
        }
        Err(JsonError::InvalidState(symbol, self.state))
    }

    /// Checks that a value may begin in the state.
    fn validate_value_state(&self, symbol: Symbol) -> (r: Result<(), JsonError>)
        ensures
            r == if self@.state.accepts_value() {
                Ok::<(), JsonError>(())
            } else {
                Err::<(), JsonError>(JsonError::InvalidState(symbol, self@.state))
            },
    {
        let allowed = [
            State::ArrayStart,
            State::ArrayAfterComma,
            State::ObjectAfterColon,
            State::StartOfDocument,
        ];
        assert(allowed@[0] == State::ArrayStart && allowed@[1] == State::ArrayAfterComma
            && allowed@[2] == State::ObjectAfterColon && allowed@[3] == State::StartOfDocument);
        self.validate_state(&allowed, symbol)
    }

    /// Checks that a value may begin in the state, and moves to the state
    /// that follows a simple value.
    fn validate_and_modify_state_for_value(&mut self, symbol: Symbol) -> (r: Result<
        (),
        JsonError,
    >)
        requires
            old(self).wf(),
        ensures
            final(self).wf(),
            final(self)@.stack == old(self)@.stack,
            final(self).has_pending() == old(self).has_pending(),
            old(self)@.state.accepts_value() ==> r is Ok && final(self)@ == old(self)@.at(
                old(self)@.state.after_value(),
                old(self)@.input,
            ),
            !old(self)@.state.accepts_value() ==> r == Err::<(), JsonError>(
                JsonError::InvalidState(symbol, old(self)@.state),
            ),
    {
        self.validate_value_state(symbol)?;
        self.state = match self.state {
            State::StartOfDocument => State::ExpectedEndOfDocument,
            State::ObjectAfterColon => State::ObjectAfterProperty,
            _ => State::ArrayAfterValue,
        };
        Ok(())
    }

    /// Closes the innermost container and restores the state of the one
    /// around it.
    fn pop_container(&mut self)
        requires
            old(self).wf(),
            old(self)@.stack.len() >= 2,
        ensures
            final(self).wf(),
            final(self).has_pending() == old(self).has_pending(),
            final(self)@ == old(self)@.closed(old(self)@.input),
    {
        self.container_stack.pop();
        let parent = self.container_stack[self.container_stack.len() - 1];
        self.state = match parent {
            ContainerType::Object => State::ObjectAfterProperty,
            ContainerType::Array => State::ArrayAfterValue,
            ContainerType::Document => State::ExpectedEndOfDocument,
        };
    }

    /// Reads the letters of the keyword `which` after its first, which has
    /// been read, and fails where the text does not spell them.
    fn consume_literal(&mut self, which: Literal) -> (r: Result<(), JsonError>)
        requires
            old(self).wf(),
        ensures
            final(self).wf(),
            final(self)@.stack == old(self)@.stack,
            match scan_literal(old(self)@.input, which.text().drop_first(), which) {
                Err(e) => r == Err::<(), JsonError>(e),
                Ok(rest) => {
                    &&& r is Ok
                    &&& final(self)@ == old(self)@.at(old(self)@.state, rest)
                    &&& !final(self).has_pending()
                },
            },
    {
        let ghost s = self@.input;
        let ghost tail = which.text().drop_first();
        let text = which.keyword();
        let n = text.unicode_len();
        let mut i: usize = 1;
        proof {
            assert(s.skip(0) =~= s);
        }
        while i < n
            invariant
                self.wf(),
                s == old(self)@.input,
                tail == which.text().drop_first(),
                text@ == which.text(),
                n == text@.len(),
                1 <= i <= n,
                i - 1 <= s.len(),
                i > 1 ==> !self.has_pending(),
                s.take(i - 1) == tail.take(i - 1),
                self@ == old(self)@.at(old(self)@.state, s.skip(i - 1)),
            decreases n - i,
        {
            let c = text.get_char(i);
            let next = match self.reader.read_char() {
                Some(next) => next,
                None => {
                    proof {
                        lemma_literal_cut(s, tail, which);
                    }
                    return Err(JsonError::UnterminatedLiteral(which));
                },
            };
            if next != c {
                proof {
                    lemma_literal_differs(s, tail, which, i - 1);
                }
                return Err(JsonError::InvalidLiteral(which));
            }
            proof {
                assert(s.skip(i - 1).drop_first() =~= s.skip(i as int));
                assert(s.take(i as int) =~= s.take(i - 1).push(s[i - 1]));
                assert(tail.take(i as int) =~= tail.take(i - 1).push(tail[i - 1]));
            }
            i = i + 1;
        }
        proof {
            assert(tail.take(tail.len() as int) =~= tail);
        }
        Ok(())
    }

    /// Reads a string whose opening quote has been read, up to and with its
    /// closing quote, and decodes its escapes.
    fn read_string(&mut self) -> (r: Result<String, JsonError>)
        requires
            old(self).wf(),
        ensures
            final(self).wf(),
            final(self)@.stack == old(self)@.stack,
            match scan_string(old(self)@.input) {
                Err(e) => r == Err::<String, JsonError>(e),
                Ok((text, rest)) => {
                    &&& r matches Ok(t)
                    &&& t@ == text
                    &&& final(self)@ == old(self)@.at(old(self)@.state, rest)
                    &&& !final(self).has_pending()
                },
            },
    {
        let ghost s = self@.input;
        let mut val = String::new();
        proof {
            lemma_with_prefix_empty(scan_string(s));
        }
        loop
            invariant
                self.wf(),
                s == old(self)@.input,
                self@ == old(self)@.at(old(self)@.state, self@.input),
                scan_string(s) == with_prefix(val@, scan_string(self@.input)),
            decreases self@.input.len(),
        {
            let ghost cur = self@.input;
            let ghost text = val@;
            let mut c = match self.reader.read_char() {
                Some(c) => c,
                None => {
                    return Err(JsonError::UnterminatedString);
                },
            };
            if c <= '\x1f' {
                return Err(JsonError::InvalidStringCharacter(c));
            }
            if c == '"' {
                proof {
                    lemma_with_prefix_end(text, cur.drop_first());
                }
                return Ok(val);
            }
            if c == '\\' {
                c = self.read_escaped_character()?;
                proof {
                    lemma_escape_consumed(cur.drop_first());
                    let n = scan_escape(cur.drop_first())->Ok_0.1;
                    assert(cur.drop_first().skip(n) =~= cur.skip(1 + n));
                }
            }
            push_char(&mut val, c);
            proof {
                lemma_with_prefix_push(text, c, scan_string(self@.input));
            }
        }
    }

    /// Reads the escape that follows a backslash and returns the character
    /// it stands for.
    fn read_escaped_character(&mut self) -> (r: Result<char, JsonError>)
        requires
            old(self).wf(),
        ensures
            final(self).wf(),
            final(self)@.stack == old(self)@.stack,
            match scan_escape(old(self)@.input) {
                Err(e) => r == Err::<char, JsonError>(e),
                Ok((c, n)) => {
                    &&& r == Ok::<char, JsonError>(c)
                    &&& final(self)@ == old(self)@.at(
                        old(self)@.state,
                        old(self)@.input.skip(n),
                    )
                    &&& !final(self).has_pending()
                },
            },
    {
        let ghost s = self@.input;
        let c = match self.reader.read_char() {
            Some(c) => c,
            None => {
                return Err(JsonError::UnterminatedEscape);
            },
        };
        assert(s.drop_first() =~= s.skip(1));
        match c {
            'n' => Ok('\n'),
            '\\' => Ok('\\'),
            'b' => Ok('\x08'),
            'f' => Ok('\x0C'),
            'r' => Ok('\r'),
            't' => Ok('\t'),
            '"' => Ok('"'),
            '/' => Ok('/'),
            'u' => {
                let r = self.read_unicode_escape();
                proof {
                    if s.len() >= 5 {
                        assert(s.drop_first().skip(4) =~= s.skip(5));
                    }
                }
                r
            },
            _ => Err(JsonError::InvalidEscape(c)),
        }
    }

    /// Reads the four hex digits that follow `\u` and returns the character
    /// with the code that they name, or the replacement character where
    /// they name a surrogate.
    fn read_unicode_escape(&mut self) -> (r: Result<char, JsonError>)
        requires
            old(self).wf(),
        ensures
            final(self).wf(),
            final(self)@.stack == old(self)@.stack,
            match hex_prefix(old(self)@.input, 4) {
                Err(e) => r == Err::<char, JsonError>(e),
                Ok(code) => {
                    &&& r == Ok::<char, JsonError>(unit_char(code))
                    &&& final(self)@ == old(self)@.at(
                        old(self)@.state,
                        old(self)@.input.skip(4),
                    )
                    &&& !final(self).has_pending()
                },
            },
    {
        let ghost s = self@.input;
        let mut result: u32 = 0;
        let mut i: usize = 0;
        proof {
            reveal_with_fuel(hex_prefix, 5);
            assert(s.skip(0) =~= s);
        }
        while i < 4
            invariant
                self.wf(),
                s == old(self)@.input,
                0 <= i <= 4,
                i <= s.len(),
                i > 0 ==> !self.has_pending(),
                self@ == old(self)@.at(old(self)@.state, s.skip(i as int)),
                hex_prefix(s, i as nat) == Ok::<int, JsonError>(result as int),
                i == 0 ==> result == 0,
                i == 1 ==> result < 0x10,
                i == 2 ==> result < 0x100,
                i == 3 ==> result < 0x1000,
                i == 4 ==> result < 0x10000,
            decreases 4 - i,
        {
            proof {
                reveal_with_fuel(hex_prefix, 5);
            }
            let c = match self.reader.read_char() {
                Some(c) => c,
                None => {
                    return Err(JsonError::UnterminatedUnicodeEscape);
                },
            };
            assert(s.skip(i as int).drop_first() =~= s.skip(i + 1));
            let nybble: u32 = if c >= '0' && c <= '9' {
                c as u32 - '0' as u32
            } else if c >= 'a' && c <= 'f' {
                c as u32 - 'a' as u32 + 10
            } else if c >= 'A' && c <= 'F' {
                c as u32 - 'A' as u32 + 10
            } else {
                return Err(JsonError::InvalidUnicodeEscape(c));
            };
            result = result * 16 + nybble;
            i = i + 1;
        }
        match char_from_u32(result) {
            Some(c) => Ok(c),
            None => Ok('\u{FFFD}'),
        }
    }

    /// Reads digits into `builder` up to the first character that is none,
    /// and reads that character too. Returns it, or `None` at the end of the
    /// text, and whether no digit was read.
    fn consume_digits(&mut self, builder: &mut String) -> (r: (Option<char>, bool))
        requires
            old(self).wf(),
        ensures
            final(self).wf(),
            final(self)@.stack == old(self)@.stack,
            !final(self).has_pending(),
            ({
                let s = old(self)@.input;
                let n = digit_count(s);
                &&& 0 <= n <= s.len()
                &&& r.0 == lookahead(s, n)
                &&& r.1 == (n == 0)
                &&& final(builder)@ == old(builder)@ + s.take(n)
                &&& final(self)@ == old(self)@.at(old(self)@.state, after_lookahead(s, n))
            }),
    {
        let ghost s = self@.input;
        let ghost mut k: int = 0;
        let mut empty = true;
        assert(s.skip(0) =~= s);
        loop
            invariant
                self.wf(),
                s == old(self)@.input,
                empty == (k == 0),
                0 <= k <= s.len(),
                self@ == old(self)@.at(old(self)@.state, s.skip(k)),
                digit_count(s) == k + digit_count(s.skip(k)),
                builder@ == old(builder)@ + s.take(k),
            decreases s.len() - k,
        {
            let next = self.reader.read_char();
            match next {
                Some(val) => {
                    assert(s.skip(k).drop_first() =~= s.skip(k + 1));
                    if val < '0' || val > '9' {
                        assert(digit_count(s.skip(k)) == 0);
                        assert(self@.input =~= after_lookahead(s, k));
                        return (next, empty);
                    } else {
                        push_char(builder, val);
                        empty = false;
                        proof {
                            assert(s.take(k).push(s[k]) =~= s.take(k + 1));
                            assert(old(builder)@ + s.take(k + 1) =~= (old(builder)@ + s.take(
                                k,
                            )).push(val));
                            k = k + 1;
                        }
                    }
                },
                None => {
                    assert(digit_count(s.skip(k)) == 0);
                    assert(self@.input =~= after_lookahead(s, k));
                    return (next, empty);
                },
            }
        }
    }

    /// Reads the integer part of a number into `builder`, and the character
    /// after it, which it returns.
    fn read_int(&mut self, builder: &mut String) -> (r: Result<Option<char>, JsonError>)
        requires
            old(self).wf(),
        ensures
            final(self).wf(),
            final(self)@.stack == old(self)@.stack,
            match int_part(old(self)@.input) {
                Err(e) => r == Err::<Option<char>, JsonError>(e),
                Ok(n) => {
                    let s = old(self)@.input;
                    &&& 1 <= n <= s.len()
                    &&& r == Ok::<Option<char>, JsonError>(lookahead(s, n))
                    &&& final(builder)@ == old(builder)@ + s.take(n)
                    &&& final(self)@ == old(self)@.at(old(self)@.state, after_lookahead(s, n))
                    &&& !final(self).has_pending()
                },
            },
    {
        let ghost s = self@.input;
        let first = self.reader.read_char();
        match first {
            None => Err(JsonError::InvalidNumber),
            Some(val) => {
                if val < '0' || val > '9' {
                    return Err(JsonError::InvalidNumber);
                }
                push_char(builder, val);
                let result = self.consume_digits(builder);
                proof {
                    let t = s.drop_first();
                    let k = digit_count(t);
                    assert(seq![val] + t.take(k) =~= s.take(1 + k));
                    assert(old(builder)@.push(val) + t.take(k) =~= old(builder)@ + s.take(1 + k));
                    assert(after_lookahead(t, k) =~= after_lookahead(s, 1 + k));
                }
                if val == '0' && !result.1 {
                    Err(JsonError::LeadingZero)
                } else {
                    Ok(result.0)
                }
            },
        }
    }

    /// Reads a fraction into `builder`, the point of which has been read,
    /// and the character after it, which it returns.
    fn read_frac(&mut self, builder: &mut String) -> (r: Result<Option<char>, JsonError>)
        requires
            old(self).wf(),
        ensures
            final(self).wf(),
            final(self)@.stack == old(self)@.stack,
            match frac_part(seq!['.'] + old(self)@.input) {
                Err(e) => r == Err::<Option<char>, JsonError>(e),
                Ok(n) => {
                    let s = old(self)@.input;
                    &&& 2 <= n <= s.len() + 1
                    &&& r == Ok::<Option<char>, JsonError>(lookahead(s, n - 1))
                    &&& final(builder)@ == old(builder)@ + seq!['.'] + s.take(n - 1)
                    &&& final(self)@ == old(self)@.at(
                        old(self)@.state,
                        after_lookahead(s, n - 1),
                    )
                    &&& !final(self).has_pending()
                },
            },
    {
        let ghost s = self@.input;
        assert((seq!['.'] + s).drop_first() =~= s);
        push_char(builder, '.');
        let result = self.consume_digits(builder);
        assert(old(builder)@.push('.') =~= old(builder)@ + seq!['.']);
        if result.1 {
            Err(JsonError::EmptyFraction)
        } else {
            Ok(result.0)
        }
    }

    /// Reads an exponent into `builder`, the marker of which, `marker`, has
    /// been read, and the character after it, which it returns. The marker
    /// goes into `builder` as it was written.
    fn read_exp(&mut self, builder: &mut String, marker: char) -> (r: Result<
        Option<char>,
        JsonError,
    >)
        requires
            old(self).wf(),
            !old(self).has_pending(),
            marker == 'e' || marker == 'E',
        ensures
            final(self).wf(),
            final(self)@.stack == old(self)@.stack,
            match exp_part(seq![marker] + old(self)@.input) {
                Err(e) => r == Err::<Option<char>, JsonError>(e),
                Ok(n) => {
                    let s = old(self)@.input;
                    &&& 2 <= n <= s.len() + 1
                    &&& r == Ok::<Option<char>, JsonError>(lookahead(s, n - 1))
                    &&& final(builder)@ == old(builder)@ + seq![marker] + s.take(n - 1)
                    &&& final(self)@ == old(self)@.at(
                        old(self)@.state,
                        after_lookahead(s, n - 1),
                    )
                    &&& !final(self).has_pending()
                },
            },
    {
        let ghost s = self@.input;
        let ghost x = seq![marker] + s;
        push_char(builder, marker);
        assert(old(builder)@.push(marker) =~= old(builder)@ + seq![marker]);
        let next = self.reader.read_char();
        match next {
            None => Err(JsonError::UnterminatedExponent),
            Some(val) => {
                let ghost sign: int = if val == '-' || val == '+' { 1 } else { 0 };
                if val == '-' || val == '+' {
                    push_char(builder, val);
                    assert(s.drop_first() =~= s.skip(1));
                } else {
                    self.reader.push_back(val)?;
                    assert(seq![val] + s.drop_first() =~= s.skip(0));
                }
                assert(self@.input == s.skip(sign));
                assert(x.skip(1 + sign) =~= s.skip(sign));
                let result = self.consume_digits(builder);
                proof {
                    let t = s.skip(sign);
                    let k = digit_count(t);
                    assert(s.take(sign) + t.take(k) =~= s.take(sign + k));
                    assert(builder@ =~= old(builder)@ + seq![marker] + s.take(sign + k));
                    assert(after_lookahead(t, k) =~= after_lookahead(s, sign + k));
                }
                if result.1 {
                    Err(JsonError::EmptyExponent)
                } else {
                    Ok(result.0)
                }
            },
        }
    }

    /// Reads a number whose first character, `initial`, has been read. The
    /// character that ends the number is pushed back.
    #[verifier::rlimit(40)]
    fn read_number(&mut self, initial: char) -> (r: Result<String, JsonError>)
        requires
            old(self).wf(),
            !old(self).has_pending(),
            initial == '-' || is_digit(initial),
        ensures
            final(self).wf(),
            final(self)@.stack == old(self)@.stack,
            match scan_number(seq![initial] + old(self)@.input) {
                Err(e) => r == Err::<String, JsonError>(e),
                Ok((text, rest)) => {
                    &&& r matches Ok(t)
                    &&& t@ == text
                    &&& final(self)@ == old(self)@.at(old(self)@.state, rest)
                },
            },
    {
        let ghost full = seq![initial] + self@.input;
        let ghost sign: int = if initial == '-' { 1 } else { 0 };
        let mut builder = String::new();
        if initial == '-' {
            push_char(&mut builder, '-');
        } else {
            self.reader.push_back(initial)?;
        }
        proof {
            lemma_sign_read(initial, old(self)@.input, self@.input, builder@);
        }
        let ghost input0 = self@.input;
        let ghost text0 = builder@;
        let mut next_char = self.read_int(&mut builder)?;
        let ghost int_len = int_part(full.skip(sign))->Ok_0;
        let ghost m1 = sign + int_len;
        proof {
            lemma_part_read(full, sign, int_len, text0, builder@, next_char, self@.input);
        }
        let ghost mut frac_len: int = 0;
        if let Some(val) = next_char {
            if val == '.' {
                let ghost text1 = builder@;
                next_char = self.read_frac(&mut builder)?;
                proof {
                    frac_len = frac_part(full.skip(m1))->Ok_0;
                    lemma_part_read(
                        full,
                        m1 + 1,
                        frac_len - 1,
                        text1 + seq!['.'],
                        builder@,
                        next_char,
                        self@.input,
                    );
                }
            }
        }
        let ghost m2 = m1 + frac_len;
        let ghost mut exp_len: int = 0;
        if let Some(val) = next_char {
            if val == 'e' || val == 'E' {
                let ghost text2 = builder@;
                let ghost input2 = self@.input;
                next_char = self.read_exp(&mut builder, val)?;
                proof {
                    exp_len = exp_part(full.skip(m2))->Ok_0;
                    lemma_exponent_read(
                        full,
                        m2,
                        exp_len,
                        val,
                        text2,
                        builder@,
                        next_char,
                        input2,
                        self@.input,
                    );
                }
            }
        }
        if let Some(val) = next_char {
            self.reader.push_back(val)?;
        }
        proof {
            lemma_number_read(
                full,
                NumberShape { sign, int_len, frac_len, exp_len },
                builder@,
                next_char,
                self@.input,
            );
        }
        Ok(builder)
    }
}

/// What the scanner holds once the sign of a number has been dealt with:
/// the sign is in the text, or the first digit is back in the input.
proof fn lemma_sign_read(initial: char, before: Seq<char>, after: Seq<char>, text: Seq<char>)
    requires
        initial == '-' ==> after == before && text == Seq::<char>::empty().push('-'),
        initial != '-' ==> after == seq![initial] + before && text == Seq::<char>::empty(),
    ensures
        ({
            let full = seq![initial] + before;
            let sign: int = if initial == '-' { 1 } else { 0 };
            &&& after == full.skip(sign)
            &&& text == full.take(sign)
        }),
{
    let full = seq![initial] + before;
    if initial == '-' {
        assert(after =~= full.skip(1));
        assert(text =~= full.take(1));
    } else {
        assert(after =~= full.skip(0));
        assert(text =~= full.take(0));
    }
}

/// Reading `n` characters from place `at` of `full`, and one more, is
/// reading up to place `at + n` of `full`.
proof fn lemma_part_read(
    full: Seq<char>,
    at: int,
    n: int,
    text_before: Seq<char>,
    text_after: Seq<char>,
    next_char: Option<char>,
    input_after: Seq<char>,
)
    requires
        0 <= at <= full.len(),
        0 <= n <= full.len() - at,
        text_before == full.take(at),
        text_after == text_before + full.skip(at).take(n),
        next_char == lookahead(full.skip(at), n),
        input_after == after_lookahead(full.skip(at), n),
    ensures
        text_after == full.take(at + n),
        next_char == lookahead(full, at + n),
        input_after == after_lookahead(full, at + n),
        next_char matches Some(c) ==> full.skip(at + n) == seq![c] + input_after && full.skip(
            at + n,
        ).drop_first() == input_after && full.take(at + n) + seq![c] == full.take(at + n + 1),
        next_char is None ==> full.skip(at + n) == Seq::<char>::empty(),
{
    assert(full.take(at) + full.skip(at).take(n) =~= full.take(at + n));
    assert(after_lookahead(full.skip(at), n) =~= after_lookahead(full, at + n));
    if at + n < full.len() {
        assert(full.skip(at + n) =~= seq![full[at + n]] + input_after);
        assert(full.skip(at + n).drop_first() =~= input_after);
        assert(full.take(at + n) + seq![full[at + n]] =~= full.take(at + n + 1));
    } else {
        assert(full.skip(at + n) =~= Seq::<char>::empty());
    }
}

/// Reading the marker of an exponent at place `at` of `full`, the
/// `n - 1` characters that follow it, and one more, is reading up to place
/// `at + n`.
proof fn lemma_exponent_read(
    full: Seq<char>,
    at: int,
    n: int,
    marker: char,
    text_before: Seq<char>,
    text_after: Seq<char>,
    next_char: Option<char>,
    input_before: Seq<char>,
    input_after: Seq<char>,
)
    requires
        0 <= at < full.len(),
        2 <= n <= full.len() - at,
        full.skip(at) == seq![marker] + input_before,
        text_before == full.take(at),
        text_after == text_before + seq![marker] + input_before.take(n - 1),
        next_char == lookahead(input_before, n - 1),
        input_after == after_lookahead(input_before, n - 1),
    ensures
        text_after == full.take(at + n),
        next_char == lookahead(full, at + n),
        input_after == after_lookahead(full, at + n),
{
    let tail = seq![marker] + input_before;
    assert(tail[0] == marker);
    assert(tail.drop_first() =~= input_before);
    assert(full.skip(at).drop_first() =~= full.skip(at + 1));
    assert(full.take(at) + seq![marker] =~= full.take(at + 1));
    assert(full.take(at + 1) + full.skip(at + 1).take(n - 1) =~= full.take(at + n));
    assert(after_lookahead(input_before, n - 1) =~= after_lookahead(full, at + n));
}

/// Once the parts of a number have been read and the character after them
/// is back in the input, the number has been scanned.
proof fn lemma_number_read(
    full: Seq<char>,
    shape: NumberShape,
    text: Seq<char>,
    next_char: Option<char>,
    input: Seq<char>,
)
    requires
        number_shape(full) == Ok::<NumberShape, JsonError>(shape),
        0 <= shape.len() <= full.len(),
        text == number_text(full, shape),
        next_char == lookahead(full, shape.len()),
        input == match next_char {
            Some(c) => seq![c] + after_lookahead(full, shape.len()),
            None => after_lookahead(full, shape.len()),
        },
    ensures
        scan_number(full) == Ok::<(Seq<char>, Seq<char>), JsonError>((text, input)),
{
    assert(input =~= full.skip(shape.len()));
}

/// The result of scanning the rest of a string, with the text `prefix` that
/// was decoded before it put in front.
pub open spec fn with_prefix(
    prefix: Seq<char>,
    r: Result<(Seq<char>, Seq<char>), JsonError>,
) -> Result<(Seq<char>, Seq<char>), JsonError> {
    match r {
        Ok((text, rest)) => Ok((prefix + text, rest)),
        Err(e) => Err(e),
    }
}

/// Nothing decoded yet changes nothing.
proof fn lemma_with_prefix_empty(r: Result<(Seq<char>, Seq<char>), JsonError>)
    ensures
        with_prefix(Seq::empty(), r) == r,
{
    if let Ok((text, rest)) = r {
        assert(Seq::<char>::empty() + text =~= text);
    }
}

/// At the closing quote the decoded text is the whole string.
proof fn lemma_with_prefix_end(prefix: Seq<char>, rest: Seq<char>)
    ensures
        with_prefix(prefix, Ok((Seq::empty(), rest))) == Ok::<(Seq<char>, Seq<char>), JsonError>(
            (prefix, rest),
        ),
{
    assert(prefix + Seq::<char>::empty() =~= prefix);
}

/// One more decoded character moves from the rest to the text.
proof fn lemma_with_prefix_push(
    prefix: Seq<char>,
    c: char,
    r: Result<(Seq<char>, Seq<char>), JsonError>,
)
    ensures
        with_prefix(prefix, prepend(c, r)) == with_prefix(prefix.push(c), r),
{
    if let Ok((text, rest)) = r {
        assert(prefix + (seq![c] + text) =~= prefix.push(c) + text);
    }
}

/// An escape never reaches past the end of the text.
proof fn lemma_escape_consumed(s: Seq<char>)
    ensures
        scan_escape(s) matches Ok((c, n)) ==> 1 <= n <= s.len(),
{
    reveal_with_fuel(hex_prefix, 5);
}

/// A text that ends inside a keyword is a proper prefix of it.
proof fn lemma_literal_cut(s: Seq<char>, tail: Seq<char>, which: Literal)
    requires
        s.len() < tail.len(),
        s == tail.take(s.len() as int),
    ensures
        scan_literal(s, tail, which) == Err::<Seq<char>, JsonError>(
            JsonError::UnterminatedLiteral(which),
        ),
{
}

/// A text that departs from a keyword at place `i` does not spell it.
proof fn lemma_literal_differs(s: Seq<char>, tail: Seq<char>, which: Literal, i: int)
    requires
        0 <= i < s.len(),
        i < tail.len(),
        s[i] != tail[i],
    ensures
        scan_literal(s, tail, which) == Err::<Seq<char>, JsonError>(
            JsonError::InvalidLiteral(which),
        ),
{
    if tail.is_prefix_of(s) {
        assert(s.subrange(0, tail.len() as int)[i] == tail[i]);
    }
    if s.is_prefix_of(tail) {
        assert(tail.subrange(0, s.len() as int)[i] == s[i]);
    }
}

} // verus!
