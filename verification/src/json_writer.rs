//! The writer: from a value tree to JSON text.

use vstd::prelude::*;
use vstd::string::StringExecFns;
use crate::model::{Entries, Json};
use crate::text::{append_natural, chars_of, natural_text, push_char};
use crate::value::{lemma_values_model, models, Float, JsonMap, Value};

verus! {

/// The control characters: U+0000 to U+001F and U+007F to U+009F.
pub open spec fn is_control_character(c: char) -> bool {
    c <= '\x1f' || ('\x7f' <= c && c <= '\u{9f}')
}

/// The lower-case hex digit of the value `n`.
pub open spec fn hex_digit(n: int) -> char {
    if 0 <= n && n <= 9 {
        ('0' as int + n) as char
    } else {
        ('a' as int + n - 10) as char
    }
}

/// What stands for `c` inside a string: the character itself, or its
/// escape. A quote, a backslash and a slash get a backslash in front; a
/// control character gets its letter, or `\u` and four hex digits where it
/// has none.
pub open spec fn escape(c: char) -> Seq<char> {
    if c == '"' {
        seq!['\\', '"']
    } else if c == '\\' {
        seq!['\\', '\\']
    } else if c == '\x08' {
        seq!['\\', 'b']
    } else if c == '\x0C' {
        seq!['\\', 'f']
    } else if c == '\n' {
        seq!['\\', 'n']
    } else if c == '\r' {
        seq!['\\', 'r']
    } else if c == '\t' {
        seq!['\\', 't']
    } else if c == '/' {
        seq!['\\', '/']
    } else if is_control_character(c) {
        seq![
            '\\',
            'u',
            hex_digit((c as int / 4096) % 16),
            hex_digit((c as int / 256) % 16),
            hex_digit((c as int / 16) % 16),
            hex_digit(c as int % 16),
        ]
    } else {
        seq![c]
    }
}

/// The first `n` characters of `text`, each escaped.
pub open spec fn escaped(text: Seq<char>, n: nat) -> Seq<char>
    decreases n,
{
    if n == 0 || n > text.len() {
        Seq::empty()
    } else {
        escaped(text, (n - 1) as nat) + escape(text[n - 1])
    }
}

/// `text` as a string of JSON: escaped, between quotes.
pub open spec fn quoted(text: Seq<char>) -> Seq<char> {
    seq!['"'] + escaped(text, text.len()) + seq!['"']
}

/// `n` in base ten, with a minus sign where it is negative.
pub open spec fn integer_text(n: int) -> Seq<char> {
    if n < 0 {
        seq!['-'] + natural_text((-n) as nat)
    } else {
        natural_text(n as nat)
    }
}

/// What goes before an item that is not the first of its container.
pub open spec fn separator(first: bool) -> Seq<char> {
    if first {
        Seq::empty()
    } else {
        seq![',']
    }
}

/// What ends a line of the output: a carriage return and a line feed, on
/// every platform.
pub open spec fn line_end() -> Seq<char> {
    seq!['\r', '\n']
}

/// What goes before a line of the output: nothing in compact output, which
/// has one line; else the end of the line before and the indentation
/// `margin`.
pub open spec fn line_start(indentation: Seq<char>, margin: Seq<char>) -> Seq<char> {
    if indentation.len() == 0 {
        Seq::empty()
    } else {
        line_end() + margin
    }
}

/// What goes between a name and its value.
pub open spec fn name_separator(indentation: Seq<char>) -> Seq<char> {
    if indentation.len() == 0 {
        seq![':']
    } else {
        seq![':', ' ']
    }
}

/// What closes a container: where it has items and the output has lines,
/// the bracket goes on a line of its own.
pub open spec fn closing(
    close: char,
    has_items: bool,
    indentation: Seq<char>,
    margin: Seq<char>,
) -> Seq<char> {
    if has_items {
        line_start(indentation, margin).push(close)
    } else {
        seq![close]
    }
}

/// The text of a value that stands on a line with the indentation `margin`.
pub open spec fn value_text(value: Json, indentation: Seq<char>, margin: Seq<char>) -> Seq<char>
    decreases value, 0nat,
{
    match value {
        Json::Null => seq!['n', 'u', 'l', 'l'],
        Json::Bool(b) => if b {
            seq!['t', 'r', 'u', 'e']
        } else {
            seq!['f', 'a', 'l', 's', 'e']
        },
        Json::Float(text) => text,
        Json::Integer(n) => integer_text(n as int),
        Json::String(text) => quoted(text),
        Json::Sequence(items) => seq!['['] + items_text(
            items,
            items.len(),
            indentation,
            margin + indentation,
        ) + closing(']', items.len() > 0, indentation, margin),
        Json::Object(entries) => object_text(entries, indentation, margin),
    }
}

/// The text of an object that stands on a line with the indentation
/// `margin`.
pub open spec fn object_text(entries: Entries, indentation: Seq<char>, margin: Seq<char>) -> Seq<
    char,
>
    decreases entries, entries.len() + 1,
{
    seq!['{'] + entries_text(entries, entries.len(), false, indentation, margin + indentation)
        + closing('}', entries.len() > 0, indentation, margin)
}

/// The text of the first `n` of `items`, each on a line with the
/// indentation `margin`.
pub open spec fn items_text(
    items: Seq<Json>,
    n: nat,
    indentation: Seq<char>,
    margin: Seq<char>,
) -> Seq<char>
    decreases items, n,
{
    if n == 0 || n > items.len() {
        Seq::empty()
    } else {
        items_text(items, (n - 1) as nat, indentation, margin) + separator(n == 1) + line_start(
            indentation,
            margin,
        ) + value_text(items[n - 1], indentation, margin)
    }
}

/// The text of the first `n` of `entries`, each on a line with the
/// indentation `margin`. Where the entries continue others, `continued`,
/// the first of them gets a separator too.
pub open spec fn entries_text(
    entries: Entries,
    n: nat,
    continued: bool,
    indentation: Seq<char>,
    margin: Seq<char>,
) -> Seq<char>
    decreases entries, n,
{
    if n == 0 || n > entries.len() {
        Seq::empty()
    } else {
        entries_text(entries, (n - 1) as nat, continued, indentation, margin) + separator(
            n == 1 && !continued,
        ) + line_start(indentation, margin) + quoted(entries[n - 1].0) + name_separator(
            indentation,
        ) + value_text(entries[n - 1].1, indentation, margin)
    }
}

/// How a writer lays its output out.
pub struct JsonWriterSettings {
    /// What one level of nesting is indented by. Empty for compact output
    /// on one line.
    pub indentation: String,
}

impl Default for JsonWriterSettings {
    /// Compact output.
    fn default() -> (r: Self)
        ensures
            r.indentation@ == Seq::<char>::empty(),
    {
        JsonWriterSettings { indentation: String::new() }
    }
}

/// Writes a value tree as JSON text.
pub struct JsonWriter {
    settings: JsonWriterSettings,
}

impl JsonWriter {
    /// What one level of nesting is indented by.
    pub closed spec fn indentation(&self) -> Seq<char> {
        self.settings.indentation@
    }

    /// A writer with the settings `settings`.
    pub fn new(settings: JsonWriterSettings) -> (r: Self)
        ensures
            r.indentation() == settings.indentation@,
    {
        JsonWriter { settings }
    }

    /// The text of the object `obj`.
    pub fn format(&self, obj: &JsonMap) -> (r: String)
        ensures
            r@ == object_text(obj@, self.indentation(), Seq::empty()),
    {
        let mut writer = String::new();
        self.write_struct(&mut writer, obj, "");
        proof {
            assert(Seq::<char>::empty() + object_text(obj@, self.indentation(), ""@) =~= object_text(
                obj@,
                self.indentation(),
                Seq::empty(),
            )) by {
                reveal_strlit("");
                assert(""@ =~= Seq::<char>::empty());
            }
        }
        writer
    }

    /// Writes an object whose lines are indented by `margin`.
    pub fn write_struct(&self, writer: &mut String, obj: &JsonMap, margin: &str)
        ensures
            final(writer)@ == old(writer)@ + object_text(obj@, self.indentation(), margin@),
        decreases obj@, obj@.len() + 1,
    {
        self.write_bracket_open(writer, '{');
        let inner = margin.to_owned().concat(self.settings.indentation.as_str());
        let written_entries = self.write_struct_entries(writer, obj, false, inner.as_str());
        self.write_bracket_close(writer, '}', written_entries, margin);
        proof {
            lemma_concat4(
                old(writer)@,
                seq!['{'],
                entries_text(obj@, obj@.len(), false, self.indentation(), inner@),
                closing('}', obj@.len() > 0, self.indentation(), margin@),
            );
        }
    }

    /// Writes the entries of an object, each on a line indented by
    /// `margin`, and says whether anything was written: before this call,
    /// with `assume_first_entry_written`, or in it.
    pub fn write_struct_entries(
        &self,
        writer: &mut String,
        obj: &JsonMap,
        assume_first_entry_written: bool,
        margin: &str,
    ) -> (r: bool)
        ensures
            final(writer)@ == old(writer)@ + entries_text(
                obj@,
                obj@.len(),
                assume_first_entry_written,
                self.indentation(),
                margin@,
            ),
            r == (assume_first_entry_written || obj@.len() > 0),
        decreases obj@, obj@.len(),
    {
        let mut first = !assume_first_entry_written;
        let n = obj.len();
        let mut i: usize = 0;
        proof {
            lemma_concat_empty(writer@);
        }
        while i < n
            invariant
                i <= n,
                n == obj@.len(),
                first == (!assume_first_entry_written && i == 0),
                writer@ == old(writer)@ + entries_text(
                    obj@,
                    i as nat,
                    assume_first_entry_written,
                    self.indentation(),
                    margin@,
                ),
            decreases n - i,
        {
            let ghost before = writer@;
            let ghost done = entries_text(
                obj@,
                i as nat,
                assume_first_entry_written,
                self.indentation(),
                margin@,
            );
            self.maybe_write_value_separator(writer, first);
            self.maybe_write_value_whitespace(writer, margin);
            self.write_string(writer, obj.key_at(i));
            self.write_name_value_separator(writer);
            self.write_value(writer, obj.value_at(i), margin);
            proof {
                lemma_concat6(
                    old(writer)@,
                    done,
                    separator(first),
                    line_start(self.indentation(), margin@),
                    quoted(obj@[i as int].0),
                    name_separator(self.indentation()),
                    value_text(obj@[i as int].1, self.indentation(), margin@),
                );
            }
            first = false;
            i = i + 1;
        }
        !first
    }

    /// Writes the comma that goes before an entry that is not the first.
    pub fn maybe_write_value_separator(&self, writer: &mut String, first: bool)
        ensures
            final(writer)@ == old(writer)@ + separator(first),
    {
        if first {
            proof {
                lemma_concat_empty(writer@);
            }
            return ;
        }
        push_char(writer, ',');
    }

    /// Writes the colon between a name and its value, with a space after
    /// it where the output has lines.
    pub fn write_name_value_separator(&self, writer: &mut String)
        ensures
            final(writer)@ == old(writer)@ + name_separator(self.indentation()),
    {
        push_char(writer, ':');
        if !self.settings.indentation.as_str().is_empty() {
            push_char(writer, ' ');
            assert(writer@ =~= old(writer)@ + seq![':', ' ']);
        }
    }

    /// Writes `null`.
    pub fn write_null(&self, writer: &mut String)
        ensures
            final(writer)@ == old(writer)@ + seq!['n', 'u', 'l', 'l'],
    {
        push_char(writer, 'n');
        push_char(writer, 'u');
        push_char(writer, 'l');
        push_char(writer, 'l');
        assert(writer@ =~= old(writer)@ + seq!['n', 'u', 'l', 'l']);
    }

    /// Writes `true` or `false`.
    pub fn write_bool(&self, writer: &mut String, val: bool)
        ensures
            final(writer)@ == old(writer)@ + value_text(
                Json::Bool(val),
                Seq::empty(),
                Seq::empty(),
            ),
    {
        if val {
            push_char(writer, 't');
            push_char(writer, 'r');
            push_char(writer, 'u');
            push_char(writer, 'e');
            assert(writer@ =~= old(writer)@ + seq!['t', 'r', 'u', 'e']);
        } else {
            push_char(writer, 'f');
            push_char(writer, 'a');
            push_char(writer, 'l');
            push_char(writer, 's');
            push_char(writer, 'e');
            assert(writer@ =~= old(writer)@ + seq!['f', 'a', 'l', 's', 'e']);
        }
    }

    /// Writes the literal of a float.
    pub fn write_f64(&self, writer: &mut String, val: &Float)
        ensures
            final(writer)@ == old(writer)@ + val@,
    {
        writer.append(val.as_str());
    }

    /// Writes an integer in base ten.
    pub fn write_i64(&self, writer: &mut String, val: i64)
        ensures
            final(writer)@ == old(writer)@ + integer_text(val as int),
    {
        if val < 0 {
            push_char(writer, '-');
            let magnitude: u64 = (-(val as i128)) as u64;
            append_natural(writer, magnitude);
            assert(writer@ =~= old(writer)@ + (seq!['-'] + natural_text((-val) as nat)));
        } else {
            append_natural(writer, val as u64);
        }
    }

    /// Writes a value that stands on a line indented by `margin`.
    pub fn write_value(&self, writer: &mut String, value: &Value, margin: &str)
        ensures
            final(writer)@ == old(writer)@ + value_text(value@, self.indentation(), margin@),
        decreases value@, 0nat,
    {
        match value {
            Value::Null => self.write_null(writer),
            Value::Bool(val) => self.write_bool(writer, *val),
            Value::F64(val) => self.write_f64(writer, val),
            Value::I64(val) => self.write_i64(writer, *val),
            Value::String(val) => self.write_string(writer, val.as_str()),
            Value::Vec(val) => {
                assert(value@ == Json::Sequence(models(val@)));
                assert(value@->Sequence_0 == models(val@));
                assert(decreases_to!(value@ => value@->Sequence_0));
                self.write_vec(writer, val, margin)
            },
            Value::Object(val) => {
                assert(value@ == Json::Object(val@));
                assert(value@->Object_0 == val@);
                assert(decreases_to!(value@ => value@->Object_0));
                self.write_struct(writer, val, margin)
            },
        }
    }

    /// Writes an array whose lines are indented by `margin`.
    pub fn write_vec(&self, writer: &mut String, vec: &Vec<Value>, margin: &str)
        ensures
            final(writer)@ == old(writer)@ + value_text(
                Json::Sequence(models(vec@)),
                self.indentation(),
                margin@,
            ),
        decreases models(vec@), vec@.len() + 1,
    {
        let ghost items = models(vec@);
        proof {
            lemma_values_model(vec@, vec@.len());
        }
        self.write_bracket_open(writer, '[');
        let inner = margin.to_owned().concat(self.settings.indentation.as_str());
        let ghost opened = writer@;
        let mut first = true;
        let n = vec.len();
        let mut i: usize = 0;
        proof {
            lemma_concat_empty(writer@);
        }
        while i < n
            invariant
                i <= n,
                n == vec@.len(),
                items == models(vec@),
                items.len() == n,
                forall|j: int| 0 <= j < n ==> #[trigger] items[j] == vec@[j]@,
                inner@ == margin@ + self.indentation(),
                first == (i == 0),
                writer@ == opened + items_text(items, i as nat, self.indentation(), inner@),
            decreases n - i,
        {
            let ghost done = items_text(items, i as nat, self.indentation(), inner@);
            self.maybe_write_value_separator(writer, first);
            self.maybe_write_value_whitespace(writer, inner.as_str());
            assert(items[i as int] == vec@[i as int]@);
            self.write_value(writer, &vec[i], inner.as_str());
            proof {
                lemma_concat4(
                    opened + done,
                    separator(first),
                    line_start(self.indentation(), inner@),
                    value_text(items[i as int], self.indentation(), inner@),
                );
                lemma_concat_assoc(
                    opened,
                    done,
                    separator(first) + line_start(self.indentation(), inner@) + value_text(
                        items[i as int],
                        self.indentation(),
                        inner@,
                    ),
                );
                assert(done + (separator(first) + line_start(self.indentation(), inner@)
                    + value_text(items[i as int], self.indentation(), inner@)) =~= done
                    + separator(first) + line_start(self.indentation(), inner@) + value_text(
                    items[i as int],
                    self.indentation(),
                    inner@,
                ));
            }
            first = false;
            i = i + 1;
        }
        self.write_bracket_close(writer, ']', !first, margin);
        proof {
            lemma_concat4(
                old(writer)@,
                seq!['['],
                items_text(items, n as nat, self.indentation(), inner@),
                closing(']', n > 0, self.indentation(), margin@),
            );
        }
    }

    /// Writes `text` between quotes, escaping what needs it.
    pub fn write_string(&self, writer: &mut String, text: &str)
        ensures
            final(writer)@ == old(writer)@ + quoted(text@),
    {
        push_char(writer, '"');
        let chars = chars_of(text);
        let ghost opened = writer@;
        let mut i: usize = 0;
        proof {
            lemma_concat_empty(writer@);
        }
        while i < chars.len()
            invariant
                i <= chars.len(),
                chars@ == text@,
                writer@ == opened + escaped(text@, i as nat),
            decreases chars.len() - i,
        {
            let c = chars[i];
            let ghost done = escaped(text@, i as nat);
            self.write_escaped(writer, c);
            proof {
                lemma_concat_assoc(opened, done, escape(c));
            }
            i = i + 1;
        }
        push_char(writer, '"');
        proof {
            assert(writer@ =~= old(writer)@ + quoted(text@));
        }
    }

    /// Writes one character of a string, escaped where it needs to be.
    fn write_escaped(&self, writer: &mut String, c: char)
        ensures
            final(writer)@ == old(writer)@ + escape(c),
    {
        let code = c as u32;
        if c == '"' {
            push_char(writer, '\\');
            push_char(writer, '"');
            assert(writer@ =~= old(writer)@ + seq!['\\', '"']);
        } else if c == '\\' {
            push_char(writer, '\\');
            push_char(writer, '\\');
            assert(writer@ =~= old(writer)@ + seq!['\\', '\\']);
        } else if c == '\x08' {
            push_char(writer, '\\');
            push_char(writer, 'b');
            assert(writer@ =~= old(writer)@ + seq!['\\', 'b']);
        } else if c == '\x0C' {
            push_char(writer, '\\');
            push_char(writer, 'f');
            assert(writer@ =~= old(writer)@ + seq!['\\', 'f']);
        } else if c == '\n' {
            push_char(writer, '\\');
            push_char(writer, 'n');
            assert(writer@ =~= old(writer)@ + seq!['\\', 'n']);
        } else if c == '\r' {
            push_char(writer, '\\');
            push_char(writer, 'r');
            assert(writer@ =~= old(writer)@ + seq!['\\', 'r']);
        } else if c == '\t' {
            push_char(writer, '\\');
            push_char(writer, 't');
            assert(writer@ =~= old(writer)@ + seq!['\\', 't']);
        } else if c == '/' {
            push_char(writer, '\\');
            push_char(writer, '/');
            assert(writer@ =~= old(writer)@ + seq!['\\', '/']);
        } else if code <= 0x1f || (0x7f <= code && code <= 0x9f) {
            push_char(writer, '\\');
            push_char(writer, 'u');
            push_char(writer, hex_char((code / 4096) % 16));
            push_char(writer, hex_char((code / 256) % 16));
            push_char(writer, hex_char((code / 16) % 16));
            push_char(writer, hex_char(code % 16));
            assert(writer@ =~= old(writer)@ + escape(c));
        } else {
            push_char(writer, c);
            assert(writer@ =~= old(writer)@ + seq![c]);
        }
    }

    /// Writes the bracket that opens a container.
    pub fn write_bracket_open(&self, writer: &mut String, open_char: char)
        ensures
            final(writer)@ == old(writer)@ + seq![open_char],
    {
        push_char(writer, open_char);
        assert(writer@ =~= old(writer)@ + seq![open_char]);
    }

    /// Writes the bracket that closes a container, on a line of its own
    /// where the container has entries and the output has lines.
    pub fn write_bracket_close(
        &self,
        writer: &mut String,
        close_char: char,
        has_entries: bool,
        margin: &str,
    )
        ensures
            final(writer)@ == old(writer)@ + closing(
                close_char,
                has_entries,
                self.indentation(),
                margin@,
            ),
    {
        if has_entries {
            self.maybe_write_value_whitespace(writer, margin);
        }
        push_char(writer, close_char);
        proof {
            assert(writer@ =~= old(writer)@ + closing(
                close_char,
                has_entries,
                self.indentation(),
                margin@,
            ));
        }
    }

    /// Begins a line indented by `margin`, where the output has lines.
    pub fn maybe_write_value_whitespace(&self, writer: &mut String, margin: &str)
        ensures
            final(writer)@ == old(writer)@ + line_start(self.indentation(), margin@),
    {
        if !self.settings.indentation.as_str().is_empty() {
            self.write_line(writer);
            self.write_indentation(writer, margin);
            assert(writer@ =~= old(writer)@ + (line_end() + margin@));
        } else {
            proof {
                lemma_concat_empty(writer@);
            }
        }
    }

    /// Writes the indentation `margin`.
    pub fn write_indentation(&self, writer: &mut String, margin: &str)
        ensures
            final(writer)@ == old(writer)@ + margin@,
    {
        writer.append(margin);
    }

    /// Ends a line.
    pub fn write_line(&self, writer: &mut String)
        ensures
            final(writer)@ == old(writer)@ + line_end(),
    {
        push_char(writer, '\r');
        push_char(writer, '\n');
        assert(writer@ =~= old(writer)@ + line_end());
    }
}

/// The lower-case hex digit of the value `n`.
fn hex_char(n: u32) -> (r: char)
    requires
        n < 16,
    ensures
        r == hex_digit(n as int),
{
    if n < 10 {
        (48u8 + n as u8) as char
    } else {
        (87u8 + n as u8) as char
    }
}

/// Nothing appended changes nothing.
proof fn lemma_concat_empty(a: Seq<char>)
    ensures
        a + Seq::<char>::empty() == a,
{
    assert(a + Seq::<char>::empty() =~= a);
}

/// Appending piece by piece is appending the whole.
proof fn lemma_concat_assoc(a: Seq<char>, b: Seq<char>, c: Seq<char>)
    ensures
        a + b + c == a + (b + c),
{
    assert(a + b + c =~= a + (b + c));
}

/// Appending three pieces one by one is appending them joined.
proof fn lemma_concat4(a: Seq<char>, b: Seq<char>, c: Seq<char>, d: Seq<char>)
    ensures
        a + b + c + d == a + (b + c + d),
{
    assert(a + b + c + d =~= a + (b + c + d));
}

/// Appending an entry piece by piece is appending it to what was done.
proof fn lemma_concat6(
    a: Seq<char>,
    done: Seq<char>,
    b: Seq<char>,
    c: Seq<char>,
    d: Seq<char>,
    e: Seq<char>,
    f: Seq<char>,
)
    ensures
        a + done + b + c + d + e + f == a + (done + b + c + d + e + f),
{
    assert(a + done + b + c + d + e + f =~= a + (done + b + c + d + e + f));
}

} // verus!
