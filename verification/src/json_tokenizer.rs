//! The token stream: the scanner's tokens, with one slot of pushback and a
//! count of the objects that are open.

use vstd::prelude::*;
use crate::grammar::{
    is_whitespace, lemma_scan, lemma_scan_after_property, lemma_scan_value, Lexer,
};
use crate::json_error::{JsonError, Literal};
use crate::json_text_tokenizer::JsonTextTokenizer;
use crate::json_token::{JsonToken, Token};
use crate::state::{ContainerType, State};

verus! {

/// How many of the open containers are objects.
pub open spec fn open_objects(stack: Seq<ContainerType>) -> int
    decreases stack.len(),
{
    if stack.len() == 0 {
        0
    } else if stack.last() == ContainerType::Object {
        open_objects(stack.drop_last()) + 1
    } else {
        open_objects(stack.drop_last())
    }
}

impl Token {
    /// What consuming the token adds to the count of open objects.
    pub open spec fn depth_shift(self) -> int {
        match self {
            Token::StartObject => 1,
            Token::EndObject => -1,
            _ => 0,
        }
    }

    /// What consuming the token adds to the count of open containers of
    /// either kind.
    pub open spec fn nesting_shift(self) -> int {
        match self {
            Token::StartObject | Token::StartArray => 1,
            Token::EndObject | Token::EndArray => -1,
            _ => 0,
        }
    }
}

/// The token stream as a value: the scanner, the token that was pushed
/// back, and the count of open objects as the consumer sees it.
pub struct TokenStream {
    pub lexer: Lexer,
    pub buffered: Option<Token>,
    pub depth: int,
}

impl TokenStream {
    /// The stream before the first character of `text`.
    pub open spec fn start(text: Seq<char>) -> TokenStream {
        TokenStream { lexer: Lexer::start(text), buffered: None, depth: 0 }
    }

    /// What the buffered token will add to the depth when it is consumed
    /// again.
    pub open spec fn pending_shift(self) -> int {
        match self.buffered {
            Some(token) => token.depth_shift(),
            None => 0,
        }
    }

    /// The depth counts the objects that the scanner has open, less what a
    /// token that was pushed back has not yet added.
    pub open spec fn wf(self) -> bool {
        &&& self.lexer.wf()
        &&& self.depth >= 0
        &&& self.depth + self.pending_shift() == open_objects(self.lexer.stack)
    }

    /// The next token and the stream after it: the buffered token where
    /// there is one, else the scanner's next.
    pub open spec fn next(self) -> Result<(Token, TokenStream), JsonError> {
        match self.buffered {
            Some(token) => Ok(
                (
                    token,
                    TokenStream {
                        lexer: self.lexer,
                        buffered: None,
                        depth: self.depth + token.depth_shift(),
                    },
                ),
            ),
            None => match self.lexer.scan() {
                Err(e) => Err(e),
                Ok((token, lexer)) => Ok(
                    (
                        token,
                        TokenStream {
                            lexer,
                            buffered: None,
                            depth: self.depth + token.depth_shift(),
                        },
                    ),
                ),
            },
        }
    }

    /// The stream with `token` pushed back, unless a token is buffered
    /// already.
    pub open spec fn push_back(self, token: Token) -> Result<TokenStream, JsonError> {
        if self.buffered is Some {
            Err(JsonError::TokenAlreadyBuffered)
        } else {
            Ok(
                TokenStream {
                    lexer: self.lexer,
                    buffered: Some(token),
                    depth: self.depth - token.depth_shift(),
                },
            )
        }
    }

    /// The stream after one whole value has been consumed: a simple value,
    /// or an object or an array with all that is nested in it.
    pub open spec fn skip_value(self) -> Result<TokenStream, JsonError> {
        self.skip_from(0)
    }

    /// The stream after tokens have been consumed up to the one that brings
    /// the count of open containers, now `balance`, back to zero.
    pub open spec fn skip_from(self, balance: int) -> Result<TokenStream, JsonError>
        decreases self.measure(),
        when self.wf()
    {
        match self.next() {
            Err(e) => Err(e),
            Ok((token, after)) => {
                proof {
                    lemma_next(self);
                }
                if balance + token.nesting_shift() == 0 {
                    Ok(after)
                } else {
                    after.skip_from(balance + token.nesting_shift())
                }
            },
        }
    }

    /// What bounds the tokens still to come. A token from the scanner
    /// lowers it by two at least, so that pushing the token back still
    /// leaves it lower than before.
    pub open spec fn measure(self) -> nat {
        if self.buffered is Some {
            2 * self.lexer.measure() + 1
        } else {
            2 * self.lexer.measure()
        }
    }
}

/// An opened container adds one to the count of open objects where it is an
/// object; closing it gives the old count back.
pub proof fn lemma_open_objects_push(stack: Seq<ContainerType>, kind: ContainerType)
    ensures
        open_objects(stack.push(kind)) == open_objects(stack) + if kind == ContainerType::Object {
            1int
        } else {
            0int
        },
{
    assert(stack.push(kind).drop_last() =~= stack);
}

/// No more objects are open than containers, less the document.
pub proof fn lemma_open_objects_bound(stack: Seq<ContainerType>)
    ensures
        0 <= open_objects(stack) <= stack.len(),
        stack.len() > 0 && stack[0] == ContainerType::Document ==> open_objects(stack)
            < stack.len(),
    decreases stack.len(),
{
    if stack.len() > 0 {
        lemma_open_objects_bound(stack.drop_last());
        if stack.len() > 1 {
            assert(stack.drop_last()[0] == stack[0]);
        }
    }
}

/// A token handed out by a well-formed stream leaves the stream well
/// formed and nearer to its end.
pub proof fn lemma_next(stream: TokenStream)
    requires
        stream.wf(),
    ensures
        stream.next() matches Ok((token, after)) ==> {
            &&& after.wf()
            &&& after.buffered is None
            &&& after.measure() < stream.measure()
            &&& stream.buffered is None ==> after.measure() + 2 <= stream.measure()
        },
{
    if stream.buffered is None {
        lemma_scan(stream.lexer);
        if let Ok((token, lexer)) = stream.lexer.scan() {
            lemma_open_objects_bound(lexer.stack);
            match token {
                Token::StartObject => {
                    lemma_open_objects_push(stream.lexer.stack, ContainerType::Object);
                },
                Token::StartArray => {
                    lemma_open_objects_push(stream.lexer.stack, ContainerType::Array);
                },
                _ => {},
            }
        }
    } else {
        lemma_open_objects_bound(stream.lexer.stack);
    }
}

/// Consuming a start of object raises the depth by one and consuming an
/// end of object lowers it by one; no other token moves it.
pub proof fn lemma_depth_after_next(stream: TokenStream)
    ensures
        stream.next() matches Ok((token, after)) ==> after.depth == stream.depth + match token {
            Token::StartObject => 1int,
            Token::EndObject => -1int,
            _ => 0int,
        },
{
}

/// Pushing a token back moves the depth the other way, and consuming the
/// token again gives back the stream and the depth from before.
pub proof fn lemma_depth_after_push_back(stream: TokenStream, token: Token)
    requires
        stream.buffered is None,
    ensures
        stream.push_back(token) matches Ok(pushed) && pushed.depth == stream.depth - match token {
            Token::StartObject => 1int,
            Token::EndObject => -1int,
            _ => 0int,
        } && pushed.next() == Ok::<(Token, TokenStream), JsonError>((token, stream)),
{
}

/// With no token pushed back, the depth is the number of objects that are
/// open. So once the end of an object has been consumed that matches an
/// earlier start, which leaves the same containers open as before that
/// start, the depth is what it was then.
pub proof fn lemma_depth_counts_open_objects(stream: TokenStream, earlier: TokenStream)
    requires
        stream.wf(),
        stream.buffered is None,
        earlier.wf(),
        earlier.buffered is None,
    ensures
        stream.depth == open_objects(stream.lexer.stack),
        stream.lexer.stack == earlier.lexer.stack ==> stream.depth == earlier.depth,
{
}

/// Once the scanner has reported the end of the document, asking for a
/// token is an error, unless a token was pushed back. Pushing the end of
/// the document back hands it out once more, and then asking is an error
/// again.
pub proof fn lemma_next_after_end_document(stream: TokenStream)
    requires
        stream.buffered is None,
    ensures
        stream.next() matches Ok((token, after)) ==> (token is EndDocument ==> {
            &&& after.next() == Err::<(Token, TokenStream), JsonError>(
                JsonError::NextAfterEndOfDocument,
            )
            &&& after.push_back(Token::EndDocument) matches Ok(pushed)
            &&& pushed.next() == Ok::<(Token, TokenStream), JsonError>((Token::EndDocument, after))
        }),
{
    if stream.lexer.state != State::ReaderExhausted {
        lemma_scan_end_document(stream.lexer);
    }
}

/// The end of the document is reported once: the scanner is then in its
/// terminal state.
proof fn lemma_scan_end_document(lexer: Lexer)
    requires
        lexer.state != State::ReaderExhausted,
    ensures
        lexer.scan_from() matches Ok((token, after)) ==> (token is EndDocument ==> after.state
            == State::ReaderExhausted),
    decreases lexer.input.len(),
{
    if lexer.input.len() > 0 {
        let c = lexer.input[0];
        let rest = lexer.input.drop_first();
        if is_whitespace(c) {
            lemma_scan_end_document(lexer.at(lexer.state, rest));
        } else if c == ':' {
            if lexer.state == State::ObjectBeforeColon {
                lemma_scan_end_document(lexer.at(State::ObjectAfterColon, rest));
            }
        } else if c == ',' {
            if lexer.state == State::ObjectAfterProperty {
                lemma_scan_end_document(lexer.at(State::ObjectAfterComma, rest));
            } else if lexer.state == State::ArrayAfterValue {
                lemma_scan_end_document(lexer.at(State::ArrayAfterComma, rest));
            }
        } else if c == 'n' {
            assert(!(Literal::Null.token() is EndDocument));
        } else if c == 't' {
            assert(!(Literal::True.token() is EndDocument));
        } else if c == 'f' {
            assert(!(Literal::False.token() is EndDocument));
        }
    }
}

/// Skipping from inside a value, `balance` containers deep, ends on the
/// containers `base` that were open before the value, in the state that
/// follows a value there.
proof fn lemma_skip_from(base: Seq<ContainerType>, stream: TokenStream, balance: int)
    requires
        stream.wf(),
        stream.buffered is None,
        balance >= 0,
        base.len() >= 1,
        stream.lexer.stack.len() == base.len() + balance,
        stream.lexer.stack.take(base.len() as int) == base,
        balance == 0 ==> stream.lexer.state.awaits_value(),
    ensures
        stream.skip_from(balance) matches Ok(after) ==> {
            &&& after.wf()
            &&& after.buffered is None
            &&& after.lexer.stack == base
            &&& after.lexer.state == State::after_close(base.last())
            &&& after.measure() < stream.measure()
        },
    decreases stream.measure(),
{
    lemma_next(stream);
    lemma_scan(stream.lexer);
    if balance == 0 {
        lemma_scan_value(stream.lexer);
    }
    if let Ok((token, after)) = stream.next() {
        let next_balance = balance + token.nesting_shift();
        let stack = stream.lexer.stack;
        assert(after.lexer.stack.take(base.len() as int) =~= base) by {
            match token {
                Token::StartObject | Token::StartArray => {
                    assert(after.lexer.stack.take(base.len() as int) =~= stack.take(
                        base.len() as int,
                    ));
                },
                Token::EndObject | Token::EndArray => {
                    assert(after.lexer.stack.take(base.len() as int) =~= stack.take(
                        base.len() as int,
                    ));
                },
                _ => {},
            }
        }
        if next_balance == 0 {
            assert(after.lexer.stack =~= after.lexer.stack.take(base.len() as int));
        } else {
            lemma_skip_from(base, after, next_balance);
        }
    }
}

/// Skipping the value of a property leaves the stream right after that
/// property, however deep the value is nested: the same containers are
/// open, the depth is the same, and the next token, if the text yields
/// one, is the name of the next property or the end of the object.
pub proof fn lemma_skip_value(stream: TokenStream)
    requires
        stream.wf(),
        stream.buffered is None,
        stream.lexer.state == State::ObjectBeforeColon,
    ensures
        stream.skip_value() matches Ok(after) ==> {
            &&& after.wf()
            &&& after.buffered is None
            &&& after.lexer.stack == stream.lexer.stack
            &&& after.depth == stream.depth
            &&& after.lexer.state == State::ObjectAfterProperty
            &&& after.next() matches Ok((token, _)) ==> token is Name || token is EndObject
        },
{
    let base = stream.lexer.stack;
    assert(base.take(base.len() as int) =~= base);
    lemma_skip_from(base, stream, 0);
    if let Ok(after) = stream.skip_value() {
        lemma_scan_after_property(after.lexer);
    }
}

/// The scanner's tokens, with single-token pushback. `object_depth` counts
/// the `{` that are open among the tokens consumed so far.
pub struct JsonTokenizer {
    buffered_token: Option<JsonToken>,
    /// The number of objects that are open: one more after a start of
    /// object is consumed, one less after an end of object, and the
    /// reverse when either is pushed back. To be read, not written:
    /// the stream counts on it.
    pub object_depth: usize,
    proxy: JsonTextTokenizer,
}

impl View for JsonTokenizer {
    type V = TokenStream;

    closed spec fn view(&self) -> TokenStream {
        TokenStream {
            lexer: self.proxy@,
            buffered: match self.buffered_token {
                Some(token) => Some(token@),
                None => None,
            },
            depth: self.object_depth as int,
        }
    }
}

impl JsonTokenizer {
    /// The scanner is sound and the depth counts its open objects.
    pub closed spec fn wf(&self) -> bool {
        self.proxy.wf() && self@.wf()
    }

    /// A well-formed tokenizer is a well-formed stream.
    pub proof fn lemma_wf(&self)
        requires
            self.wf(),
        ensures
            self@.wf(),
    {
    }

    /// The number of objects that are open: the field `object_depth`.
    pub fn depth(&self) -> (r: usize)
        ensures
            r == self@.depth,
    {
        self.object_depth
    }

    /// A stream at the start of `input`.
    pub fn new(input: &str) -> (r: Self)
        ensures
            r.wf(),
            r@.wf(),
            r@ == TokenStream::start(input@),
    {
        let r = JsonTokenizer {
            buffered_token: None,
            object_depth: 0,
            proxy: JsonTextTokenizer::new(input),
        };
        proof {
            reveal_with_fuel(open_objects, 2);
            assert(r@.lexer.stack.drop_last() =~= Seq::<ContainerType>::empty());
        }
        r
    }

    /// Hands `token` back, to be returned by the next call of `next`. Only
    /// one token can be held: with one held already this fails and changes
    /// nothing. The depth moves as if the token had not been consumed.
    pub fn push_back(&mut self, token: JsonToken) -> (r: Result<(), JsonError>)
        requires
            old(self).wf(),
            old(self)@.buffered is None && token@ is StartObject ==> old(self)@.depth > 0,
        ensures
            final(self).wf(),
            final(self)@.wf(),
            match old(self)@.push_back(token@) {
                Err(e) => r == Err::<(), JsonError>(e) && final(self)@ == old(self)@,
                Ok(stream) => r is Ok && final(self)@ == stream,
            },
    {
        if self.buffered_token.is_some() {
            return Err(JsonError::TokenAlreadyBuffered);
        }
        proof {
            self.proxy.lemma_wf();
            lemma_open_objects_bound(self.proxy@.stack);
        }
        match token {
            JsonToken::StartObject => {
                self.object_depth = self.object_depth - 1;
            },
            JsonToken::EndObject => {
                self.object_depth = self.object_depth + 1;
            },
            _ => {},
        }
        self.buffered_token = Some(token);
        Ok(())
    }

    /// The next token of the stream: the token that was pushed back, where
    /// there is one, else the scanner's next. The end of the document is a
    /// token; asking again after the scanner has reported it is an error.
    /// An error leaves the depth and the open containers as they were.
    pub fn next(&mut self) -> (r: Result<JsonToken, JsonError>)
        requires
            old(self).wf(),
        ensures
            final(self).wf(),
            final(self)@.wf(),
            match old(self)@.next() {
                Err(e) => {
                    &&& r == Err::<JsonToken, JsonError>(e)
                    &&& final(self)@.buffered is None
                    &&& final(self)@.depth == old(self)@.depth
                    &&& final(self)@.lexer.stack == old(self)@.lexer.stack
                },
                Ok((token, stream)) => {
                    &&& r matches Ok(t)
                    &&& t@ == token
                    &&& final(self)@ == stream
                },
            },
    {
        proof {
            lemma_next(self@);
            self.proxy.lemma_wf();
            lemma_open_objects_bound(self.proxy@.stack);
        }
        let token_to_return = match self.buffered_token.take() {
            Some(token) => token,
            None => {
                let scanned = self.proxy.next_impl();
                proof {
                    self.proxy.lemma_wf();
                    lemma_open_objects_bound(self.proxy@.stack);
                }
                scanned?
            },
        };
        match token_to_return {
            JsonToken::StartObject => {
                self.object_depth = self.object_depth + 1;
            },
            JsonToken::EndObject => {
                self.object_depth = self.object_depth - 1;
            },
            _ => {},
        }
        Ok(token_to_return)
    }

    /// Consumes the value that follows: a simple value, or an object or an
    /// array with all that is nested in it. To be called right after a
    /// property name has been consumed, or wherever else a value must
    /// follow.
    pub fn skip_value(&mut self) -> (r: Result<(), JsonError>)
        requires
            old(self).wf(),
            old(self)@.buffered is None,
            old(self)@.lexer.state.awaits_value(),
        ensures
            final(self).wf(),
            final(self)@.wf(),
            match old(self)@.skip_value() {
                Err(e) => r == Err::<(), JsonError>(e),
                Ok(stream) => r is Ok && final(self)@ == stream,
            },
    {
        let mut depth: usize = 0;
        let ghost base = self@.lexer.stack.len();
        loop
            invariant
                self.wf(),
                self@.buffered is None,
                self@.lexer.stack.len() == base + depth,
                depth == 0 ==> self@.lexer.state.awaits_value(),
                old(self)@.skip_value() == self@.skip_from(depth as int),
            decreases self@.measure(),
        {
            proof {
                lemma_next(self@);
                lemma_scan(self@.lexer);
                if depth == 0 {
                    lemma_scan_value(self@.lexer);
                }
            }
            let token = self.next()?;
            proof {
                self.proxy.lemma_wf();
            }
            match token {
                JsonToken::EndArray | JsonToken::EndObject => {
                    depth = depth - 1;
                },
                JsonToken::StartArray | JsonToken::StartObject => {
                    depth = depth + 1;
                },
                _ => {},
            }
            if depth == 0 {
                return Ok(());
            }
        }
    }
}

} // verus!
