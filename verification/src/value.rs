//! The value tree: values, and the ordered object that holds them by key.

use vstd::prelude::*;
use vstd::std_specs::cmp::PartialEqSpecImpl;
use crate::grammar::is_json_number;
use crate::json_error::{Failure, JsonError};
use crate::model::{
    has_key, index_of, insert, lemma_index_of, lemma_insert, lemma_remove, lookup, merge,
    merge_first, remove, same, same_entries, unique_keys, Entries, Json,
};
use crate::number::{exceeds_finite, exceeds_finite_range, number_layout};
use crate::text::chars_of;

verus! {

/// A number that is no 64-bit integer, held as the decimal literal that
/// denotes it. The literal is one of the grammar and small enough in
/// magnitude for a finite 64-bit binary float: nothing else can be built.
#[derive(Debug)]
pub struct Float {
    text: String,
}

impl View for Float {
    type V = Seq<char>;

    closed spec fn view(&self) -> Seq<char> {
        self.text@
    }
}

impl Float {
    #[verifier::type_invariant]
    spec fn finite(self) -> bool {
        is_json_number(self.text@) && !exceeds_finite(self.text@)
    }

    /// The number that `text` denotes. Fails where `text` is no number
    /// literal of the grammar, and where it denotes a number too large in
    /// magnitude for a finite 64-bit binary float.
    pub fn new(text: &str) -> (r: Result<Float, JsonError>)
        ensures
            match r {
                Ok(x) => x@ == text@ && is_json_number(text@) && !exceeds_finite(text@),
                Err(e) => e@ == if !is_json_number(text@) {
                    Failure::InvalidNumberText(text@)
                } else {
                    Failure::SpecialValue
                } && (!is_json_number(text@) || exceeds_finite(text@)),
            },
    {
        let chars = chars_of(text);
        match number_layout(&chars) {
            None => Err(JsonError::InvalidNumberText(text.to_owned())),
            Some(layout) => {
                if exceeds_finite_range(&chars, &layout) {
                    Err(JsonError::SpecialValue)
                } else {
                    Ok(Float { text: text.to_owned() })
                }
            },
        }
    }

    /// The literal.
    pub fn as_str(&self) -> (r: &str)
        ensures
            r@ == self@,
            is_json_number(r@),
            !exceeds_finite(r@),
    {
        proof {
            use_type_invariant(self);
        }
        self.text.as_str()
    }
}

/// What an object holds under a key, or an array at a place.
#[derive(Debug)]
pub enum Value {
    Null,
    Bool(bool),
    F64(Float),
    I64(i64),
    String(String),
    Vec(Vec<Value>),
    Object(JsonMap),
}

/// An object: values by key, in the order in which the keys first came in.
/// A key occurs once; putting a value under a key that is there replaces
/// the value. Two objects are equal where they hold equal values under
/// the same keys, in whatever order.
#[derive(Debug)]
pub struct JsonMap {
    entries: Vec<(String, Value)>,
}

/// What the first `n` of `values` hold.
pub open spec fn values_model(values: Seq<Value>, n: nat) -> Seq<Json>
    decreases values, n,
{
    if n == 0 || n > values.len() {
        Seq::empty()
    } else {
        values_model(values, (n - 1) as nat).push(values[n - 1].view())
    }
}

/// What the first `n` of `entries` hold.
pub open spec fn entries_model(entries: Seq<(String, Value)>, n: nat) -> Entries
    decreases entries, n,
{
    if n == 0 || n > entries.len() {
        Seq::empty()
    } else {
        entries_model(entries, (n - 1) as nat).push((entries[n - 1].0@, entries[n - 1].1.view()))
    }
}

/// What `values` hold.
pub open spec fn models(values: Seq<Value>) -> Seq<Json> {
    values_model(values, values.len())
}

impl View for Value {
    type V = Json;

    open spec fn view(&self) -> Json
        decreases self, 0nat,
    {
        match self {
            Value::Null => Json::Null,
            Value::Bool(b) => Json::Bool(*b),
            Value::F64(x) => Json::Float(x@),
            Value::I64(n) => Json::Integer(*n),
            Value::String(s) => Json::String(s@),
            Value::Vec(v) => Json::Sequence(values_model(v@, v@.len())),
            Value::Object(m) => Json::Object(m.view()),
        }
    }
}

impl View for JsonMap {
    type V = Entries;

    closed spec fn view(&self) -> Entries
        decreases self, 0nat,
    {
        entries_model(self.entries@, self.entries@.len())
    }
}

/// The model of a row of values has their length, and at each place the
/// model of the value there.
pub proof fn lemma_values_model(values: Seq<Value>, n: nat)
    requires
        n <= values.len(),
    ensures
        values_model(values, n).len() == n,
        forall|i: int| 0 <= i < n ==> #[trigger] values_model(values, n)[i] == values[i]@,
    decreases n,
{
    reveal_with_fuel(values_model, 2);
    if n > 0 {
        lemma_values_model(values, (n - 1) as nat);
        assert(values_model(values, n) == values_model(values, (n - 1) as nat).push(
            values[n - 1].view(),
        ));
    } else {
        assert(values_model(values, n) == Seq::<Json>::empty());
    }
}

/// One more value at the end is one more model at the end.
pub proof fn lemma_models_push(values: Seq<Value>, value: Value)
    ensures
        models(values.push(value)) == models(values).push(value@),
{
    let longer = values.push(value);
    lemma_values_model(values, values.len());
    lemma_values_model(longer, longer.len());
    assert(models(longer) =~= models(values).push(value@));
}

/// The model of a row of entries has their length, and at each place the
/// key and the model of the value there.
proof fn lemma_entries_model(entries: Seq<(String, Value)>, n: nat)
    requires
        n <= entries.len(),
    ensures
        entries_model(entries, n).len() == n,
        forall|i: int|
            0 <= i < n ==> #[trigger] entries_model(entries, n)[i] == (
                entries[i].0@,
                entries[i].1@,
            ),
    decreases n,
{
    reveal_with_fuel(entries_model, 2);
    if n > 0 {
        lemma_entries_model(entries, (n - 1) as nat);
        assert(entries_model(entries, n) == entries_model(entries, (n - 1) as nat).push(
            (entries[n - 1].0@, entries[n - 1].1.view()),
        ));
    } else {
        assert(entries_model(entries, n) == Seq::<(Seq<char>, Json)>::empty());
    }
}

impl JsonMap {
    #[verifier::type_invariant]
    spec fn keys_once(self) -> bool {
        unique_keys(self@)
    }

    /// An object with no entry.
    pub fn new() -> (r: Self)
        ensures
            r@ == Seq::<(Seq<char>, Json)>::empty(),
    {
        JsonMap { entries: Vec::new() }
    }

    /// The number of entries. Their keys differ from one another.
    pub fn len(&self) -> (r: usize)
        ensures
            r == self@.len(),
            unique_keys(self@),
    {
        proof {
            use_type_invariant(self);
            lemma_entries_model(self.entries@, self.entries@.len());
        }
        self.entries.len()
    }

    /// Whether the object has no entry.
    pub fn is_empty(&self) -> (r: bool)
        ensures
            r == (self@.len() == 0),
    {
        self.len() == 0
    }

    /// The place of the entry with the key `key`, if there is one.
    fn position(&self, key: &String) -> (r: Option<usize>)
        ensures
            unique_keys(self@),
            self@.len() == self.entries@.len(),
            match r {
                Some(i) => i < self@.len() && has_key(self@, key@) && index_of(self@, key@) == i
                    && self@[i as int] == (key@, self.entries@[i as int].1@),
                None => !has_key(self@, key@),
            },
    {
        proof {
            use_type_invariant(self);
            lemma_entries_model(self.entries@, self.entries@.len());
        }
        let mut i: usize = 0;
        while i < self.entries.len()
            invariant
                i <= self.entries.len(),
                self@.len() == self.entries@.len(),
                unique_keys(self@),
                forall|j: int| 0 <= j < self@.len() ==> #[trigger] self@[j] == (
                    self.entries@[j].0@,
                    self.entries@[j].1@,
                ),
                forall|j: int| 0 <= j < i ==> (#[trigger] self@[j]).0 != key@,
            decreases self.entries.len() - i,
        {
            if self.entries[i].0 == *key {
                proof {
                    lemma_index_of(self@, key@, i as int);
                }
                return Some(i);
            }
            i = i + 1;
        }
        None
    }

    /// The value under the key `key`, if there is one.
    pub fn get(&self, key: &str) -> (r: Option<&Value>)
        ensures
            match lookup(self@, key@) {
                Some(value) => r matches Some(found) && found@ == value,
                None => r is None,
            },
    {
        let owned = key.to_owned();
        match self.position(&owned) {
            Some(i) => Some(&self.entries[i].1),
            None => None,
        }
    }

    /// Whether a value stands under the key `key`.
    pub fn contains_key(&self, key: &str) -> (r: bool)
        ensures
            r == has_key(self@, key@),
    {
        let owned = key.to_owned();
        self.position(&owned).is_some()
    }

    /// Puts `value` under `key`. Where the key is there already, the new
    /// value takes the place of the old one; else the entry comes last.
    pub fn insert(&mut self, key: String, value: Value)
        ensures
            final(self)@ == insert(old(self)@, key@, value@),
            unique_keys(final(self)@),
    {
        let ghost before = self@;
        let ghost rows = self.entries@;
        let found = self.position(&key);
        proof {
            lemma_entries_model(rows, rows.len());
            lemma_insert(before, key@, value@);
        }
        let mut taken = JsonMap::new();
        core::mem::swap(self, &mut taken);
        let mut entries = taken.entries;
        match found {
            Some(i) => {
                entries.set(i, (key, value));
            },
            None => {
                entries.push((key, value));
            },
        }
        proof {
            lemma_entries_model(entries@, entries@.len());
            assert(entries_model(entries@, entries@.len()) =~= insert(before, key@, value@));
        }
        *self = JsonMap { entries };
    }

    /// Takes the entry with the key `key` out and returns its value, if
    /// there is one. The other entries keep their order.
    pub fn remove(&mut self, key: &str) -> (r: Option<Value>)
        ensures
            final(self)@ == remove(old(self)@, key@),
            unique_keys(final(self)@),
            match lookup(old(self)@, key@) {
                Some(value) => r matches Some(found) && found@ == value,
                None => r is None,
            },
    {
        let ghost before = self@;
        let owned = key.to_owned();
        let found = self.position(&owned);
        proof {
            lemma_entries_model(self.entries@, self.entries@.len());
            lemma_remove(before, key@);
        }
        match found {
            None => None,
            Some(i) => {
                let mut taken = JsonMap::new();
                core::mem::swap(self, &mut taken);
                let mut entries = taken.entries;
                let entry = entries.remove(i);
                proof {
                    lemma_entries_model(entries@, entries@.len());
                    assert(entries_model(entries@, entries@.len()) =~= remove(before, key@));
                }
                *self = JsonMap { entries };
                Some(entry.1)
            },
        }
    }

    /// The keys, in the order of the entries.
    pub fn keys(&self) -> (r: Vec<String>)
        ensures
            r@.len() == self@.len(),
            forall|i: int| 0 <= i < r@.len() ==> (#[trigger] r@[i])@ == self@[i].0,
    {
        proof {
            lemma_entries_model(self.entries@, self.entries@.len());
        }
        let mut keys: Vec<String> = Vec::new();
        let mut i: usize = 0;
        while i < self.entries.len()
            invariant
                i <= self.entries.len(),
                self@.len() == self.entries@.len(),
                keys@.len() == i,
                forall|j: int| 0 <= j < self@.len() ==> (#[trigger] self@[j]).0
                    == self.entries@[j].0@,
                forall|j: int| 0 <= j < i ==> (#[trigger] keys@[j])@ == self@[j].0,
            decreases self.entries.len() - i,
        {
            keys.push(self.entries[i].0.clone());
            i = i + 1;
        }
        keys
    }

    /// Puts every entry of `other` into this object, one after the other:
    /// a key of both keeps its place and takes the value of `other`.
    pub fn merge_from(&mut self, other: JsonMap)
        ensures
            final(self)@ == merge(old(self)@, other@),
            unique_keys(final(self)@),
    {
        let ghost source = other@;
        let ghost rows = other.entries@;
        proof {
            use_type_invariant(&*self);
            lemma_entries_model(rows, rows.len());
        }
        for entry in it: other.entries
            invariant
                it.seq() == rows,
                source.len() == rows.len(),
                forall|j: int|
                    0 <= j < rows.len() ==> #[trigger] source[j] == (rows[j].0@, rows[j].1@),
                unique_keys(self@),
                self@ == merge_first(old(self)@, source, it.index() as nat),
        {
            let (key, value) = entry;
            self.insert(key, value);
        }
    }

    /// The key of the entry at place `i`.
    pub fn key_at(&self, i: usize) -> (r: &str)
        requires
            i < self@.len(),
        ensures
            r@ == self@[i as int].0,
    {
        proof {
            lemma_entries_model(self.entries@, self.entries@.len());
        }
        self.entries[i].0.as_str()
    }

    /// The value of the entry at place `i`.
    pub fn value_at(&self, i: usize) -> (r: &Value)
        requires
            i < self@.len(),
        ensures
            r@ == self@[i as int].1,
    {
        proof {
            lemma_entries_model(self.entries@, self.entries@.len());
        }
        &self.entries[i].1
    }
}

impl Value {
    /// Whether the value is null.
    pub fn is_null(&self) -> (r: bool)
        ensures
            r == (self@ is Null),
    {
        matches!(self, Value::Null)
    }

    /// The truth value, where the value is one.
    pub fn as_bool(&self) -> (r: Option<bool>)
        ensures
            r == match self@ {
                Json::Bool(b) => Some(b),
                _ => None,
            },
    {
        match self {
            Value::Bool(b) => Some(*b),
            _ => None,
        }
    }

    /// The number, where the value is a number that is no 64-bit integer.
    pub fn as_f64(&self) -> (r: Option<&Float>)
        ensures
            match self@ {
                Json::Float(text) => r matches Some(x) && x@ == text,
                _ => r is None,
            },
    {
        match self {
            Value::F64(x) => Some(x),
            _ => None,
        }
    }

    /// The integer, where the value is one.
    pub fn as_i64(&self) -> (r: Option<i64>)
        ensures
            r == match self@ {
                Json::Integer(n) => Some(n),
                _ => None,
            },
    {
        match self {
            Value::I64(n) => Some(*n),
            _ => None,
        }
    }

    /// The text, where the value is a string.
    pub fn as_string(&self) -> (r: Option<&str>)
        ensures
            match self@ {
                Json::String(text) => r matches Some(s) && s@ == text,
                _ => r is None,
            },
    {
        match self {
            Value::String(s) => Some(s.as_str()),
            _ => None,
        }
    }

    /// The values, where the value is an array.
    pub fn as_vec(&self) -> (r: Option<&[Value]>)
        ensures
            match self@ {
                Json::Sequence(items) => r matches Some(values) && models(values@) == items,
                _ => r is None,
            },
    {
        match self {
            Value::Vec(v) => Some(v.as_slice()),
            _ => None,
        }
    }

    /// The object, where the value is one.
    pub fn as_object(&self) -> (r: Option<&JsonMap>)
        ensures
            match self@ {
                Json::Object(entries) => r matches Some(object) && object@ == entries,
                _ => r is None,
            },
    {
        match self {
            Value::Object(o) => Some(o),
            _ => None,
        }
    }
}

impl Clone for Float {
    /// A float with the same literal.
    fn clone(&self) -> (r: Self)
        ensures
            r@ == self@,
    {
        proof {
            use_type_invariant(self);
        }
        Float { text: self.text.clone() }
    }
}

impl Clone for Value {
    /// A value that holds the same.
    fn clone(&self) -> (r: Self)
        ensures
            r@ == self@,
        decreases self,
    {
        match self {
            Value::Null => Value::Null,
            Value::Bool(b) => Value::Bool(*b),
            Value::F64(x) => Value::F64(x.clone()),
            Value::I64(n) => Value::I64(*n),
            Value::String(s) => Value::String(s.clone()),
            Value::Vec(v) => {
                let mut items: Vec<Value> = Vec::new();
                let mut i: usize = 0;
                while i < v.len()
                    invariant
                        decreases_to!(*self => v@),
                        i <= v.len(),
                        items@.len() == i,
                        forall|j: int| 0 <= j < i ==> (#[trigger] items@[j])@ == v@[j]@,
                    decreases v.len() - i,
                {
                    assert(decreases_to!(v@ => v@[i as int]));
                    let item = v[i].clone();
                    items.push(item);
                    i = i + 1;
                }
                proof {
                    lemma_values_model(v@, v@.len());
                    lemma_values_model(items@, items@.len());
                    assert(models(items@) =~= models(v@));
                }
                Value::Vec(items)
            },
            Value::Object(m) => Value::Object(m.clone()),
        }
    }
}

impl Clone for JsonMap {
    /// An object with the same entries.
    fn clone(&self) -> (r: Self)
        ensures
            r@ == self@,
        decreases self,
    {
        proof {
            use_type_invariant(self);
            lemma_entries_model(self.entries@, self.entries@.len());
        }
        let mut entries: Vec<(String, Value)> = Vec::new();
        let mut i: usize = 0;
        while i < self.entries.len()
            invariant
                i <= self.entries.len(),
                entries@.len() == i,
                forall|j: int|
                    0 <= j < i ==> (#[trigger] entries@[j]).0@ == self.entries@[j].0@
                        && entries@[j].1@ == self.entries@[j].1@,
            decreases self.entries.len() - i,
        {
            let key = self.entries[i].0.clone();
            let value = self.entries[i].1.clone();
            entries.push((key, value));
            i = i + 1;
        }
        proof {
            lemma_entries_model(entries@, entries@.len());
            assert(entries_model(entries@, entries@.len()) =~= self@);
        }
        JsonMap { entries }
    }
}

impl PartialEq for Float {
    fn eq(&self, other: &Self) -> (r: bool) {
        self.text == other.text
    }
}

impl PartialEqSpecImpl for Float {
    open spec fn obeys_eq_spec() -> bool {
        true
    }

    /// Floats are equal where their literals are.
    open spec fn eq_spec(&self, other: &Self) -> bool {
        self@ == other@
    }
}

impl PartialEq for Value {
    fn eq(&self, other: &Self) -> (r: bool)
        decreases self,
    {
        match self {
            Value::Null => matches!(other, Value::Null),
            Value::Bool(a) => match other {
                Value::Bool(b) => *a == *b,
                _ => false,
            },
            Value::F64(a) => match other {
                Value::F64(b) => a.text == b.text,
                _ => false,
            },
            Value::I64(a) => match other {
                Value::I64(b) => *a == *b,
                _ => false,
            },
            Value::String(a) => match other {
                Value::String(b) => *a == *b,
                _ => false,
            },
            Value::Vec(a) => match other {
                Value::Vec(b) => {
                    proof {
                        lemma_values_model(a@, a@.len());
                        lemma_values_model(b@, b@.len());
                    }
                    if a.len() != b.len() {
                        return false;
                    }
                    let mut i: usize = 0;
                    while i < a.len()
                        invariant
                            decreases_to!(*self => a@),
                            self@ == Json::Sequence(models(a@)),
                            other@ == Json::Sequence(models(b@)),
                            models(a@).len() == a@.len(),
                            models(b@).len() == b@.len(),
                            forall|j: int|
                                0 <= j < a@.len() ==> #[trigger] models(a@)[j] == a@[j]@,
                            forall|j: int|
                                0 <= j < b@.len() ==> #[trigger] models(b@)[j] == b@[j]@,
                            i <= a.len(),
                            a.len() == b.len(),
                            forall|j: int| 0 <= j < i ==> same(#[trigger] models(a@)[j], b@[j]@),
                        decreases a.len() - i,
                    {
                        assert(decreases_to!(a@ => a@[i as int]));
                        if !a[i].eq(&b[i]) {
                            assert(!same(models(a@)[i as int], models(b@)[i as int]));
                            return false;
                        }
                        i = i + 1;
                    }
                    true
                },
                _ => false,
            },
            Value::Object(a) => match other {
                Value::Object(b) => a.eq(b),
                _ => false,
            },
        }
    }
}

impl PartialEqSpecImpl for Value {
    open spec fn obeys_eq_spec() -> bool {
        true
    }

    /// Values are equal where they hold the same: see [`same`].
    open spec fn eq_spec(&self, other: &Self) -> bool {
        same(self@, other@)
    }
}

impl PartialEq for JsonMap {
    fn eq(&self, other: &Self) -> (r: bool)
        decreases self,
    {
        proof {
            lemma_entries_model(self.entries@, self.entries@.len());
            lemma_entries_model(other.entries@, other.entries@.len());
        }
        if self.entries.len() != other.entries.len() {
            return false;
        }
        let mut i: usize = 0;
        while i < self.entries.len()
            invariant
                i <= self.entries.len(),
                self@.len() == self.entries@.len(),
                other@.len() == other.entries@.len(),
                self@.len() == other@.len(),
                forall|j: int| 0 <= j < self@.len() ==> #[trigger] self@[j] == (
                    self.entries@[j].0@,
                    self.entries@[j].1@,
                ),
                forall|j: int| 0 <= j < i ==> has_key(other@, (#[trigger] self@[j]).0) && same(
                    self@[j].1,
                    other@[index_of(other@, self@[j].0)].1,
                ),
            decreases self.entries.len() - i,
        {
            match other.position(&self.entries[i].0) {
                None => {
                    assert(!has_key(other@, self@[i as int].0));
                    return false;
                },
                Some(j) => {
                    if !self.entries[i].1.eq(&other.entries[j].1) {
                        assert(!same(
                            self@[i as int].1,
                            other@[index_of(other@, self@[i as int].0)].1,
                        ));
                        return false;
                    }
                },
            }
            i = i + 1;
        }
        true
    }
}

impl PartialEqSpecImpl for JsonMap {
    open spec fn obeys_eq_spec() -> bool {
        true
    }

    /// Objects are equal where they hold equal values under the same keys,
    /// in whatever order.
    open spec fn eq_spec(&self, other: &Self) -> bool {
        same_entries(self@, other@)
    }
}

} // verus!
