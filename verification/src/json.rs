//! JSON values as the workflow engine reads them.
//!
//! [`Json`] is a plain value: objects keep their keys in ascending order, and
//! integers are told apart from fractional numbers. Reading JSON text and
//! rendering it is done by `serde_json`.

use vstd::prelude::*;
use vstd::string::*;
use crate::ordered;
use crate::ordered::SortedMap;

verus! {

broadcast use vstd::string::group_string_axioms;

/// `serde_json`'s number, carried through unread.
#[verifier::external_type_specification]
#[verifier::external_body]
pub struct ExNumber(serde_json::Number);

/// `serde_json`'s value, met only where text is read or rendered.
#[verifier::external_type_specification]
#[verifier::external_body]
pub struct ExValue(serde_json::Value);

/// `serde_json::Number::clone` hands back the same number.
pub assume_specification[ <serde_json::Number as Clone>::clone ](
    number: &serde_json::Number,
) -> (copy: serde_json::Number)
    ensures
        copy == *number,
;

/// A number that is not an integer in the range of `u64` and `i64`, as `serde_json`
/// has it.
#[derive(Debug, PartialEq)]
pub struct Fraction {
    number: serde_json::Number,
}

impl Fraction {
    /// The number that is carried.
    pub closed spec fn carried(self) -> serde_json::Number {
        self.number
    }

    /// The number that is carried.
    pub fn number(&self) -> (number: &serde_json::Number)
        ensures
            *number == self.carried(),
    {
        &self.number
    }
}

/// A JSON number.
#[derive(Debug, PartialEq)]
pub enum JsonNumber {
    /// An integer in the range of `u64`.
    Unsigned(u64),
    /// An integer in the range of `i64`.
    Signed(i64),
    /// Any other number.
    Fraction(Fraction),
}

/// The content of a [`JsonNumber`]: an integer by its value.
pub enum NumberView {
    Integer(int),
    Fraction(serde_json::Number),
}

impl JsonNumber {
    pub open spec fn view(self) -> NumberView {
        match self {
            JsonNumber::Unsigned(n) => NumberView::Integer(n as int),
            JsonNumber::Signed(n) => NumberView::Integer(n as int),
            JsonNumber::Fraction(fraction) => NumberView::Fraction(fraction.carried()),
        }
    }

    /// A number of `serde_json`, given what its `as_u64` and its `as_i64` say of it:
    /// an integer by its value, and any other number as it is.
    pub fn new(
        unsigned: Option<u64>,
        signed: Option<i64>,
        number: serde_json::Number,
    ) -> (result: JsonNumber)
        ensures
            result@ == match (unsigned, signed) {
                (Some(n), _) => NumberView::Integer(n as int),
                (None, Some(n)) => NumberView::Integer(n as int),
                (None, None) => NumberView::Fraction(number),
            },
    {
        match (unsigned, signed) {
            (Some(n), _) => JsonNumber::Unsigned(n),
            (None, Some(n)) => JsonNumber::Signed(n),
            (None, None) => JsonNumber::Fraction(Fraction { number }),
        }
    }
}

/// A JSON value.
#[derive(Debug, PartialEq)]
pub enum Json {
    Null,
    Bool(bool),
    Number(JsonNumber),
    Text(String),
    Array(Vec<Json>),
    Object(SortedMap<Json>),
}

/// The mathematical content of a [`Json`].
pub enum JsonView {
    Null,
    Bool(bool),
    Number(NumberView),
    Text(Seq<char>),
    Array(Seq<JsonView>),
    Object(Seq<(Seq<char>, JsonView)>),
}

/// The entries of an object.
pub open spec fn fields(map: SortedMap<Json>) -> Seq<(Seq<char>, JsonView)> {
    ordered::mapped(map@, |value: Json| value.view())
}

/// The elements of an array.
pub open spec fn elements(items: Seq<Json>) -> Seq<JsonView> {
    Seq::new(items.len(), |i: int| items[i].view())
}

impl JsonView {
    /// The text, where the value is one.
    pub open spec fn as_text(self) -> Option<Seq<char>> {
        match self {
            JsonView::Text(text) => Some(text),
            _ => None,
        }
    }

    /// The number, where the value is an integer in the range of `u64`.
    pub open spec fn as_u64(self) -> Option<u64> {
        match self {
            JsonView::Number(NumberView::Integer(n)) => if 0 <= n <= u64::MAX {
                Some(n as u64)
            } else {
                None
            },
            _ => None,
        }
    }

    /// What an object holds under a key; nothing for any other value.
    pub open spec fn member(self, key: Seq<char>) -> Option<JsonView> {
        match self {
            JsonView::Object(entries) => ordered::lookup(entries, key),
            _ => None,
        }
    }
}

/// The text that `entries` hold under a key, where they hold one.
pub open spec fn text_field(entries: Seq<(Seq<char>, JsonView)>, key: Seq<char>) -> Option<
    Seq<char>,
> {
    match ordered::lookup(entries, key) {
        Some(value) => value.as_text(),
        None => None,
    }
}

/// `put` of a text where there is one.
pub open spec fn put_text(
    entries: Seq<(Seq<char>, JsonView)>,
    key: Seq<char>,
    value: Option<Seq<char>>,
) -> Seq<(Seq<char>, JsonView)> {
    match value {
        Some(value) => ordered::put(entries, key, JsonView::Text(value)),
        None => entries,
    }
}

/// An element is smaller than its array.
pub proof fn lemma_element_smaller(array: JsonView, i: int)
    requires
        array is Array,
        0 <= i < array->Array_0.len(),
    ensures
        decreases_to!(array => array->Array_0[i]),
{
    assert(decreases_to!(array => array->Array_0));
    assert(decreases_to!(array->Array_0 => array->Array_0[i]));
}

/// An entry's value is smaller than its object.
pub proof fn lemma_entry_smaller(object: JsonView, i: int)
    requires
        object is Object,
        0 <= i < object->Object_0.len(),
    ensures
        decreases_to!(object => object->Object_0[i].1),
{
    let entries = object->Object_0;
    assert(decreases_to!(object => entries));
    assert(decreases_to!(entries => entries[i]));
    assert(decreases_to!(entries[i] => entries[i].1));
}

/// What an object holds under a key is smaller than the object.
pub proof fn lemma_member_smaller(object: JsonView, key: Seq<char>)
    ensures
        object.member(key) matches Some(value) ==> decreases_to!(object => value),
{
    match object {
        JsonView::Object(entries) => {
            ordered::lemma_lookup_position(entries, key);
            match ordered::lookup(entries, key) {
                Some(value) => {
                    let i = choose|i: int|
                        0 <= i < entries.len() && #[trigger] entries[i] == (key, value);
                    lemma_entry_smaller(object, i);
                },
                None => {},
            }
        },
        _ => {},
    }
}

impl Json {
    /// The mathematical content.
    pub open spec fn view(self) -> JsonView
        decreases self,
    {
        match self {
            Json::Null => JsonView::Null,
            Json::Bool(b) => JsonView::Bool(b),
            Json::Number(number) => JsonView::Number(number@),
            Json::Text(text) => JsonView::Text(text@),
            Json::Array(items) => JsonView::Array(
                Seq::new(
                    items@.len(),
                    |i: int|
                        if 0 <= i < items@.len() {
                            items@[i].view()
                        } else {
                            JsonView::Null
                        },
                ),
            ),
            Json::Object(map) => JsonView::Object(
                Seq::new(
                    map.pairs().len(),
                    |i: int|
                        if 0 <= i < map.pairs().len() {
                            proof {
                                map.lemma_value_smaller(i);
                            }
                            (map.pairs()[i].0@, map.pairs()[i].1.view())
                        } else {
                            (Seq::empty(), JsonView::Null)
                        },
                ),
            ),
        }
    }

    /// The content of arrays and objects, element by element.
    pub broadcast proof fn lemma_view(self)
        ensures
            #![trigger self.view()]
            match self {
                Json::Array(items) => self.view() == JsonView::Array(elements(items@)),
                Json::Object(map) => self.view() == JsonView::Object(fields(map)),
                _ => true,
            },
    {
        match self {
            Json::Array(items) => {
                assert(self.view()->Array_0 =~= elements(items@));
            },
            Json::Object(map) => {
                assert(self.view()->Object_0 =~= fields(map));
            },
            _ => {},
        }
    }

    /// A text value.
    pub fn text(text: &str) -> (value: Json)
        ensures
            value@ == JsonView::Text(text@),
    {
        Json::Text(text.to_owned())
    }

    /// The text, where the value is one.
    pub fn as_text(&self) -> (text: Option<&String>)
        ensures
            match text {
                Some(text) => self@.as_text() == Some(text@),
                None => self@.as_text() is None,
            },
    {
        match self {
            Json::Text(text) => Some(text),
            _ => None,
        }
    }

    /// The number, where the value is an integer in the range of `u64`.
    pub fn as_u64(&self) -> (number: Option<u64>)
        ensures
            number == self@.as_u64(),
    {
        match self {
            Json::Number(JsonNumber::Unsigned(n)) => Some(*n),
            Json::Number(JsonNumber::Signed(n)) => if *n >= 0 {
                Some(*n as u64)
            } else {
                None
            },
            _ => None,
        }
    }

    /// What an object holds under a key; nothing for any other value.
    pub fn get(&self, key: &str) -> (found: Option<&Json>)
        ensures
            match found {
                Some(value) => self@.member(key@) == Some(value@),
                None => self@.member(key@) is None,
            },
    {
        proof {
            self.lemma_view();
        }
        match self {
            Json::Object(map) => field(map, key),
            _ => None,
        }
    }
}

impl Clone for JsonNumber {
    fn clone(&self) -> (copy: JsonNumber)
        ensures
            copy == *self,
    {
        match self {
            JsonNumber::Unsigned(n) => JsonNumber::Unsigned(*n),
            JsonNumber::Signed(n) => JsonNumber::Signed(*n),
            JsonNumber::Fraction(fraction) => JsonNumber::Fraction(
                Fraction { number: fraction.number.clone() },
            ),
        }
    }
}

impl Clone for Json {
    fn clone(&self) -> (copy: Json)
        ensures
            copy@ == self@,
        decreases self@,
    {
        match self {
            Json::Null => Json::Null,
            Json::Bool(b) => Json::Bool(*b),
            Json::Number(number) => Json::Number(number.clone()),
            Json::Text(text) => Json::Text(text.clone()),
            Json::Array(items) => {
                proof {
                    self.lemma_view();
                }
                let mut copies: Vec<Json> = Vec::new();
                let mut i: usize = 0;
                while i < items.len()
                    invariant
                        i <= items@.len(),
                        self@ == JsonView::Array(elements(items@)),
                        copies@.len() == i,
                        forall|j: int| 0 <= j < i ==> (#[trigger] copies@[j]).view() == items@[j].view(),
                    decreases items@.len() - i,
                {
                    proof {
                        lemma_element_smaller(self@, i as int);
                    }
                    copies.push(items[i].clone());
                    i += 1;
                }
                let copy = Json::Array(copies);
                proof {
                    copy.lemma_view();
                    assert(elements(copies@) =~= elements(items@));
                }
                copy
            },
            Json::Object(map) => {
                proof {
                    self.lemma_view();
                }
                let mut copies: SortedMap<Json> = SortedMap::new();
                let mut i: usize = 0;
                map.reveal_order();
                assert(fields(copies) =~= fields(*map).take(0));
                while i < map.len()
                    invariant
                        i <= map@.len(),
                        self@ == JsonView::Object(fields(*map)),
                        ordered::ascending(map@),
                        fields(copies) == fields(*map).take(i as int),
                    decreases map@.len() - i,
                {
                    proof {
                        lemma_entry_smaller(self@, i as int);
                    }
                    let key = map.key_at(i).clone();
                    let value = map.value_at(i).clone();
                    proof {
                        ordered::lemma_put_next(fields(*map), i as int);
                    }
                    set_field(&mut copies, key, value);
                    i += 1;
                }
                assert(fields(*map).take(map@.len() as int) =~= fields(*map));
                let copy = Json::Object(copies);
                proof {
                    copy.lemma_view();
                }
                copy
            },
        }
    }
}

// ---------------------------------------------------------------------------
// JSON text
// ---------------------------------------------------------------------------

/// The value that `serde_json::from_str` reads from a text; none where it
/// reports an error.
pub uninterp spec fn parsed_json(text: Seq<char>) -> Option<JsonView>;

/// The text that `serde_json::to_string` renders for a value.
pub uninterp spec fn compact_json(value: JsonView) -> Seq<char>;

/// The text that `serde_json::to_string_pretty` renders for a value.
pub uninterp spec fn pretty_json(value: JsonView) -> Seq<char>;

/// A `serde_json` value as a [`Json`], variant for variant. Nothing is claimed
/// of the result.
#[verifier::external_body]
fn from_value(value: serde_json::Value) -> (json: Json) {
    match value {
        serde_json::Value::Null => Json::Null,
        serde_json::Value::Bool(b) => Json::Bool(b),
        serde_json::Value::Number(number) => Json::Number(from_number(number)),
        serde_json::Value::String(text) => Json::Text(text),
        serde_json::Value::Array(items) => Json::Array(items.into_iter().map(from_value).collect()),
        serde_json::Value::Object(entries) => {
            let mut map = SortedMap::new();
            entries.into_iter().for_each(|(key, value)| set_field(&mut map, key, from_value(value)));
            Json::Object(map)
        },
    }
}

/// A `serde_json` number as a [`JsonNumber`], by `Number::as_u64` and
/// `Number::as_i64`. Nothing is claimed of the result.
#[verifier::external_body]
fn from_number(number: serde_json::Number) -> (json: JsonNumber) {
    JsonNumber::new(number.as_u64(), number.as_i64(), number)
}

/// A [`JsonNumber`] as a `serde_json` number, by `Number::from`. Nothing is
/// claimed of the result.
#[verifier::external_body]
fn to_number(json: &JsonNumber) -> (number: serde_json::Number) {
    match json {
        JsonNumber::Unsigned(n) => serde_json::Number::from(*n),
        JsonNumber::Signed(n) => serde_json::Number::from(*n),
        JsonNumber::Fraction(f) => f.number.clone(),
    }
}

/// A [`Json`] as a `serde_json` value, variant for variant. Nothing is claimed
/// of the result.
#[verifier::external_body]
fn to_value(json: &Json) -> (value: serde_json::Value) {
    match json {
        Json::Null => serde_json::Value::Null,
        Json::Bool(b) => serde_json::Value::Bool(*b),
        Json::Number(number) => serde_json::Value::Number(to_number(number)),
        Json::Text(text) => serde_json::Value::String(text.clone()),
        Json::Array(items) => serde_json::Value::Array(items.iter().map(to_value).collect()),
        Json::Object(map) => serde_json::Value::Object(
            (0..map.len()).map(|i| (map.key_at(i).clone(), to_value(map.value_at(i)))).collect(),
        ),
    }
}

/// `serde_json::from_str` at `serde_json::Value`: the value it reads, or
/// nothing where it reports an error. No JSON value begins with a backtick.
#[verifier::external_body]
fn read_text(text: &str) -> (value: Option<Json>)
    ensures
        match value {
            Some(value) => parsed_json(text@) == Some(value@),
            None => parsed_json(text@) is None,
        },
        text@.len() > 0 && text@[0] == '`' ==> value is None,
{
    serde_json::from_str::<serde_json::Value>(text).ok().map(from_value)
}

/// `serde_json::to_string`, which succeeds on every value: its keys are text.
#[verifier::external_body]
fn render_compact(value: &Json) -> (text: String)
    ensures
        text@ == compact_json(value@),
{
    serde_json::to_string(&to_value(value)).unwrap_or_default()
}

/// `serde_json::to_string_pretty`, which succeeds on every value: its keys are
/// text.
#[verifier::external_body]
fn render_pretty(value: &Json) -> (text: String)
    ensures
        text@ == pretty_json(value@),
{
    serde_json::to_string_pretty(&to_value(value)).unwrap_or_default()
}

impl Json {
    /// The value that a JSON text denotes, if it is JSON.
    pub fn parse(text: &str) -> (value: Option<Json>)
        ensures
            match value {
                Some(value) => parsed_json(text@) == Some(value@),
                None => parsed_json(text@) is None,
            },
            text@.len() > 0 && text@[0] == '`' ==> value is None,
    {
        read_text(text)
    }

    /// The value as JSON text on one line.
    pub fn compact(&self) -> (text: String)
        ensures
            text@ == compact_json(self@),
    {
        render_compact(self)
    }

    /// The value as indented JSON text.
    pub fn pretty(&self) -> (text: String)
        ensures
            text@ == pretty_json(self@),
    {
        render_pretty(self)
    }
}

// ---------------------------------------------------------------------------
// Objects
// ---------------------------------------------------------------------------

/// What an object holds under a key.
pub fn field<'a>(map: &'a SortedMap<Json>, key: &str) -> (found: Option<&'a Json>)
    ensures
        match found {
            Some(value) => ordered::lookup(fields(*map), key@) == Some(value@),
            None => ordered::lookup(fields(*map), key@) is None,
        },
{
    proof {
        ordered::lemma_lookup_mapped(map@, |value: Json| value.view(), key@);
    }
    map.get(key)
}

/// Put a value under a key of an object.
pub fn set_field(map: &mut SortedMap<Json>, key: String, value: Json)
    ensures
        fields(*final(map)) == ordered::put(fields(*old(map)), key@, value@),
{
    proof {
        ordered::lemma_put_mapped(map@, |value: Json| value.view(), key@, value);
    }
    let _ = map.insert(key, value);
}

/// The text that an object holds under a key, where it holds one.
pub fn str_field(map: &SortedMap<Json>, key: &str) -> (found: Option<String>)
    ensures
        match found {
            Some(text) => text_field(fields(*map), key@) == Some(text@),
            None => text_field(fields(*map), key@) is None,
        },
{
    match field(map, key) {
        Some(Json::Text(text)) => Some(text.clone()),
        _ => None,
    }
}

} // verus!
