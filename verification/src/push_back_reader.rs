//! The character cursor: one character at a time, with one slot of pushback.

use vstd::prelude::*;
use crate::json_error::JsonError;
use crate::text::chars_of;

verus! {

/// Hands out the characters of a text one by one. One character can be pushed
/// back and is then read next.
pub struct PushBackReader {
    chars: Vec<char>,
    pos: usize,
    next_char: Option<char>,
}

impl PushBackReader {
    /// The position never passes the end of the text.
    pub closed spec fn wf(&self) -> bool {
        self.pos <= self.chars.len()
    }

    /// Whether a character is held in the pushback slot.
    pub closed spec fn has_pending(&self) -> bool {
        self.next_char is Some
    }

    /// The characters still to be read, the pushed-back one first.
    pub closed spec fn remaining(&self) -> Seq<char> {
        match self.next_char {
            Some(c) => seq![c] + self.chars@.skip(self.pos as int),
            None => self.chars@.skip(self.pos as int),
        }
    }

    /// A cursor at the start of `input`.
    pub fn new(input: &str) -> (r: Self)
        ensures
            r.wf(),
            !r.has_pending(),
            r.remaining() == input@,
    {
        let chars = chars_of(input);
        assert(chars@.skip(0) =~= chars@);
        PushBackReader { chars, pos: 0, next_char: None }
    }

    /// The next character, or `None` at the end of the text. Empties the
    /// pushback slot.
    pub fn read_char(&mut self) -> (r: Option<char>)
        requires
            old(self).wf(),
        ensures
            final(self).wf(),
            !final(self).has_pending(),
            old(self).remaining().len() == 0 ==> r is None && final(self).remaining()
                == old(self).remaining(),
            old(self).remaining().len() > 0 ==> r == Some(old(self).remaining()[0])
                && final(self).remaining() == old(self).remaining().drop_first(),
    {
        match self.next_char {
            Some(c) => {
                self.next_char = None;
                assert(self.remaining() =~= old(self).remaining().drop_first());
                Some(c)
            },
            None => {
                if self.pos < self.chars.len() {
                    let c = self.chars[self.pos];
                    self.pos = self.pos + 1;
                    assert(self.remaining() =~= old(self).remaining().drop_first());
                    Some(c)
                } else {
                    None
                }
            },
        }
    }

    /// Puts `c` in front of what is still to be read. Fails, and changes
    /// nothing, when a character is already held.
    pub fn push_back(&mut self, c: char) -> (r: Result<(), JsonError>)
        requires
            old(self).wf(),
        ensures
            final(self).wf(),
            old(self).has_pending() ==> r == Err::<(), JsonError>(
                JsonError::CharacterAlreadyBuffered,
            ) && *final(self) == *old(self),
            !old(self).has_pending() ==> r is Ok && final(self).has_pending()
                && final(self).remaining() == seq![c] + old(self).remaining(),
    {
        match self.next_char {
            Some(_) => Err(JsonError::CharacterAlreadyBuffered),
            None => {
                self.next_char = Some(c);
                Ok(())
            },
        }
    }
}

} // verus!
