//! JSON values: what desired state, live state and the wire protocol are made of.

use crate::strmap::{
    ascending, entry_views, lemma_lookup_put, lemma_put_last, lemma_value_smaller,
    lemma_values_smaller, lemma_views_ascending, lemma_views_lookup, lemma_views_put, lookup, put,
    StrMap,
};
use crate::text::{quote, quoted, text_eq, text_lt};
use crate::views::{lemma_views_push, option_view, result_view, views};
use serde_json::Value;
use vstd::prelude::*;

verus! {

/// A number: an integer that fits in 64 bits, or the text of any other number.
#[derive(Debug, PartialEq)]
pub enum Number {
    /// An integer that is not negative.
    PosInt(u64),
    /// A negative integer.
    NegInt(i64),
    /// A number with a fraction or an exponent, in its shortest decimal notation.
    Float(String),
}

/// A JSON value.  The members of an object are held in the order of their keys.
#[derive(Debug, PartialEq)]
pub enum Json {
    Null,
    Bool(bool),
    Number(Number),
    String(String),
    Array(Vec<Json>),
    Object(StrMap<Json>),
}

/// What a [`Number`] stands for.
pub enum NumberView {
    PosInt(u64),
    NegInt(i64),
    Float(Seq<char>),
}

/// What a [`Json`] stands for.
pub enum JsonView {
    Null,
    Bool(bool),
    Number(NumberView),
    String(Seq<char>),
    Array(Seq<JsonView>),
    Object(Seq<(Seq<char>, JsonView)>),
}

impl View for Number {
    type V = NumberView;

    open spec fn view(&self) -> NumberView {
        match self {
            Number::PosInt(n) => NumberView::PosInt(*n),
            Number::NegInt(n) => NumberView::NegInt(*n),
            Number::Float(t) => NumberView::Float(t@),
        }
    }
}

impl View for Json {
    type V = JsonView;

    open spec fn view(&self) -> JsonView
        decreases self,
    {
        match self {
            Json::Null => JsonView::Null,
            Json::Bool(b) => JsonView::Bool(*b),
            Json::Number(n) => JsonView::Number(n@),
            Json::String(s) => JsonView::String(s@),
            Json::Array(items) => JsonView::Array(
                Seq::new(
                    items@.len(),
                    |i: int|
                        if 0 <= i < items@.len() {
                            items@[i].view()
                        } else {
                            JsonView::Null
                        },
                ),
            ),
            Json::Object(map) => {
                proof {
                    lemma_values_smaller(*map);
                }
                JsonView::Object(
                    Seq::new(
                        map@.len(),
                        |i: int|
                            if 0 <= i < map@.len() {
                                (map@[i].0, map@[i].1.view())
                            } else {
                                (Seq::empty(), JsonView::Null)
                            },
                    ),
                )
            },
        }
    }
}

/// An array stands for the views of its items.
pub proof fn lemma_array_view(items: Vec<Json>)
    ensures
        Json::Array(items)@ == JsonView::Array(views(items@)),
{
    reveal_with_fuel(<Json as View>::view, 2);
    assert(Json::Array(items)@->Array_0 =~= views(items@));
}

/// An object stands for its entries with the views of their values.
pub proof fn lemma_object_view(map: StrMap<Json>)
    ensures
        Json::Object(map)@ == JsonView::Object(entry_views(map@)),
{
    reveal_with_fuel(<Json as View>::view, 2);
    assert(Json::Object(map)@->Object_0 =~= entry_views(map@));
}

/// The members of an object; no members of anything else.
pub open spec fn members(value: JsonView) -> Seq<(Seq<char>, JsonView)> {
    match value {
        JsonView::Object(entries) => entries,
        _ => Seq::empty(),
    }
}

/// The member `key` of an object.
pub open spec fn member(value: JsonView, key: Seq<char>) -> Option<JsonView> {
    lookup(members(value), key)
}

/// The text of a string.
pub open spec fn text_of(value: JsonView) -> Option<Seq<char>> {
    match value {
        JsonView::String(text) => Some(text),
        _ => None,
    }
}

/// Whether two numbers are equal: zero equals zero of the other sign.
pub open spec fn same_number(a: NumberView, b: NumberView) -> bool {
    match (a, b) {
        (NumberView::Float(x), NumberView::Float(y)) => x == y || (is_zero(x) && is_zero(y)),
        _ => a == b,
    }
}

/// The two notations of zero with a fraction.
pub open spec fn is_zero(text: Seq<char>) -> bool {
    text == "0.0"@ || text == "-0.0"@
}

/// Whether two values are equal, member by member.
pub open spec fn same_json(a: JsonView, b: JsonView) -> bool
    decreases a,
{
    match (a, b) {
        (JsonView::Number(x), JsonView::Number(y)) => same_number(x, y),
        (JsonView::Array(x), JsonView::Array(y)) => {
            &&& x.len() == y.len()
            &&& forall|i: int| 0 <= i < x.len() ==> same_json(#[trigger] x[i], y[i])
        },
        (JsonView::Object(x), JsonView::Object(y)) => {
            &&& x.len() == y.len()
            &&& forall|i: int|
                0 <= i < x.len() ==> (#[trigger] x[i]).0 == y[i].0 && same_json(x[i].1, y[i].1)
        },
        _ => a == b,
    }
}

/// Every value equals itself.
pub proof fn lemma_same_json_reflexive(a: JsonView)
    ensures
        same_json(a, a),
    decreases a,
{
    match a {
        JsonView::Array(x) => {
            assert forall|i: int| 0 <= i < x.len() implies same_json(#[trigger] x[i], x[i]) by {
                lemma_same_json_reflexive(x[i]);
            }
        },
        JsonView::Object(x) => {
            assert forall|i: int| 0 <= i < x.len() implies same_json((#[trigger] x[i]).1, x[i].1) by {
                lemma_same_json_reflexive(x[i].1);
            }
        },
        _ => {},
    }
}

impl Number {
    /// A copy of this number.
    pub fn copy(&self) -> (copy: Number)
        ensures
            copy@ == self@,
    {
        match self {
            Number::PosInt(n) => Number::PosInt(*n),
            Number::NegInt(n) => Number::NegInt(*n),
            Number::Float(t) => Number::Float(t.clone()),
        }
    }

    /// Whether this number equals `other`.
    pub fn same(&self, other: &Number) -> (same: bool)
        ensures
            same == same_number(self@, other@),
    {
        match (self, other) {
            (Number::PosInt(a), Number::PosInt(b)) => *a == *b,
            (Number::NegInt(a), Number::NegInt(b)) => *a == *b,
            (Number::Float(a), Number::Float(b)) => {
                let a = a.as_str();
                let b = b.as_str();
                text_eq(a, b) || ((text_eq(a, "0.0") || text_eq(a, "-0.0")) && (text_eq(b, "0.0")
                    || text_eq(b, "-0.0")))
            }
            _ => false,
        }
    }
}

impl Json {
    /// A copy of this value.
    pub fn copy(&self) -> (copy: Json)
        ensures
            copy@ == self@,
        decreases self,
    {
        match self {
            Json::Null => Json::Null,
            Json::Bool(b) => Json::Bool(*b),
            Json::Number(n) => Json::Number(n.copy()),
            Json::String(s) => Json::String(s.clone()),
            Json::Array(items) => {
                let mut copies: Vec<Json> = Vec::new();
                let mut i: usize = 0;
                while i < items.len()
                    invariant
                        i <= items@.len(),
                        *self == Json::Array(*items),
                        copies@.len() == i,
                        forall|k: int| 0 <= k < i ==> (#[trigger] copies@[k])@ == items@[k]@,
                    decreases items.len() - i,
                {
                    assert(decreases_to!(*self => self->Array_0));
                    copies.push(items[i].copy());
                    i = i + 1;
                }
                proof {
                    lemma_array_view(*items);
                    lemma_array_view(copies);
                    assert(views(copies@) =~= views(items@));
                }
                Json::Array(copies)
            }
            Json::Object(map) => {
                let mut copies: StrMap<Json> = StrMap::new();
                let mut i: usize = 0;
                let ghost entries = entry_views(map@);
                while i < map.len()
                    invariant
                        i <= map@.len(),
                        *self == Json::Object(*map),
                        entries == entry_views(map@),
                        entry_views(copies@) == entries.take(i as int),
                    decreases map@.len() - i,
                {
                    proof {
                        lemma_value_smaller(*map, i as int);
                        assert(decreases_to!(*self => self->Object_0));
                    }
                    let key = map.key_at(i).to_owned();
                    let value = map.value_at(i).copy();
                    proof {
                        lemma_views_put(copies@, key@, value);
                        assert(ascending(map@));
                        lemma_put_last(entries.take(i as int), key@, value@);
                        assert(entries.take(i as int).push((key@, value@)) =~= entries.take(i + 1));
                    }
                    copies = copies.put(key, value);
                    i = i + 1;
                }
                proof {
                    lemma_object_view(*map);
                    lemma_object_view(copies);
                    assert(entries.take(i as int) =~= entries);
                }
                Json::Object(copies)
            }
        }
    }

    /// Whether this value equals `other`.
    pub fn same(&self, other: &Json) -> (same: bool)
        ensures
            same == same_json(self@, other@),
        decreases self,
    {
        match (self, other) {
            (Json::Null, Json::Null) => true,
            (Json::Bool(a), Json::Bool(b)) => *a == *b,
            (Json::Number(a), Json::Number(b)) => a.same(b),
            (Json::String(a), Json::String(b)) => text_eq(a.as_str(), b.as_str()),
            (Json::Array(a), Json::Array(b)) => {
                proof {
                    lemma_array_view(*a);
                    lemma_array_view(*b);
                }
                if a.len() != b.len() {
                    return false;
                }
                let mut i: usize = 0;
                while i < a.len()
                    invariant
                        i <= a@.len(),
                        a@.len() == b@.len(),
                        *self == Json::Array(*a),
                        self@ == JsonView::Array(views(a@)),
                        other@ == JsonView::Array(views(b@)),
                        forall|k: int| 0 <= k < i ==> same_json((#[trigger] a@[k])@, b@[k]@),
                    decreases a.len() - i,
                {
                    let equal = a[i].same(&b[i]);
                    if !equal {
                        assert(!same_json(views(a@)[i as int], views(b@)[i as int]));
                        return false;
                    }
                    i = i + 1;
                }
                assert forall|k: int| 0 <= k < a@.len() implies same_json(
                    #[trigger] views(a@)[k],
                    views(b@)[k],
                ) by {
                    assert(same_json(a@[k]@, b@[k]@));
                }
                true
            }
            (Json::Object(a), Json::Object(b)) => {
                proof {
                    lemma_object_view(*a);
                    lemma_object_view(*b);
                }
                if a.len() != b.len() {
                    return false;
                }
                let mut i: usize = 0;
                while i < a.len()
                    invariant
                        i <= a@.len(),
                        a@.len() == b@.len(),
                        *self == Json::Object(*a),
                        self@ == JsonView::Object(entry_views(a@)),
                        other@ == JsonView::Object(entry_views(b@)),
                        forall|k: int|
                            0 <= k < i ==> (#[trigger] a@[k]).0 == b@[k].0 && same_json(
                                a@[k].1@,
                                b@[k].1@,
                            ),
                    decreases a@.len() - i,
                {
                    proof {
                        lemma_value_smaller(*a, i as int);
                    }
                    let equal = text_eq(a.key_at(i), b.key_at(i)) && a.value_at(i).same(
                        b.value_at(i),
                    );
                    if !equal {
                        assert(entry_views(a@)[i as int].0 != entry_views(b@)[i as int].0
                            || !same_json(
                            entry_views(a@)[i as int].1,
                            entry_views(b@)[i as int].1,
                        ));
                        return false;
                    }
                    i = i + 1;
                }
                assert forall|k: int| 0 <= k < a@.len() implies (#[trigger] entry_views(a@)[k]).0
                    == entry_views(b@)[k].0 && same_json(
                    entry_views(a@)[k].1,
                    entry_views(b@)[k].1,
                ) by {
                    assert(a@[k].0 == b@[k].0);
                }
                true
            }
            _ => false,
        }
    }

    /// The member `key` of an object.
    pub fn get(&self, key: &str) -> (found: Option<&Json>)
        ensures
            match found {
                Some(value) => member(self@, key@) == Some(value@),
                None => member(self@, key@) is None,
            },
    {
        match self {
            Json::Object(map) => {
                proof {
                    lemma_object_view(*map);
                    lemma_views_lookup(map@, key@);
                }
                map.get(key)
            }
            _ => None,
        }
    }

    /// The text of a string.
    pub fn as_str(&self) -> (text: Option<&str>)
        ensures
            match text {
                Some(s) => text_of(self@) == Some(s@),
                None => text_of(self@) is None,
            },
    {
        match self {
            Json::String(s) => Some(s.as_str()),
            _ => None,
        }
    }

    /// The members of an object.
    pub fn as_object(&self) -> (map: Option<&StrMap<Json>>)
        ensures
            match map {
                Some(map) => {
                    &&& *self == Json::Object(*map)
                    &&& self@ == JsonView::Object(entry_views(map@))
                    &&& ascending(map@)
                    &&& ascending(entry_views(map@))
                },
                None => !(self@ is Object),
            },
    {
        match self {
            Json::Object(map) => {
                let _ = map.len();
                proof {
                    lemma_object_view(*map);
                    lemma_views_ascending(map@);
                }
                Some(map)
            }
            _ => None,
        }
    }

    /// Whether this is `null`.
    pub fn is_null(&self) -> (null: bool)
        ensures
            null == (self@ == JsonView::Null),
    {
        match self {
            Json::Null => true,
            _ => false,
        }
    }

    /// An object without members.
    pub fn empty_object() -> (object: Json)
        ensures
            object@ == JsonView::Object(Seq::empty()),
    {
        let map: StrMap<Json> = StrMap::new();
        proof {
            lemma_object_view(map);
            assert(entry_views(map@) =~= Seq::empty());
        }
        Json::Object(map)
    }

    /// This object with `value` for `key`; anything else stays as it is.
    pub fn with_member(self, key: &str, value: Json) -> (object: Json)
        ensures
            object@ == match self@ {
                JsonView::Object(entries) => JsonView::Object(put(entries, key@, value@)),
                other => other,
            },
    {
        match self {
            Json::Object(map) => {
                proof {
                    lemma_object_view(map);
                    lemma_views_put(map@, key@, value);
                }
                let map = map.put(key.to_owned(), value);
                proof {
                    lemma_object_view(map);
                }
                Json::Object(map)
            }
            other => other,
        }
    }
}

/// `serde_json::Value`: what the parser yields and the writer takes.
#[verifier::external_type_specification]
#[verifier::external_body]
pub struct ExValue(Value);

/// What `serde_json::from_str` makes of a text: the value, or the message of its error.
pub uninterp spec fn parsed_json(text: Seq<char>) -> Result<JsonView, Seq<char>>;

/// That the parser reads `value` from `text`.
pub open spec fn reads_as(text: Seq<char>, value: JsonView) -> bool {
    parsed_json(text) == Ok::<JsonView, Seq<char>>(value)
}

/// What `serde_json::to_string` writes for a value.
pub uninterp spec fn json_text(value: JsonView) -> Seq<char>;

/// How deeply arrays and objects may be nested for the parser to read them.
pub open spec fn nesting() -> nat {
    127
}

/// A value made of null, booleans, integers and strings, with no more than `depth` arrays and
/// objects inside one another.
pub open spec fn plain(value: JsonView, depth: nat) -> bool
    decreases value,
{
    match value {
        JsonView::Number(NumberView::NegInt(n)) => n < 0,
        JsonView::Number(NumberView::Float(_)) => false,
        JsonView::Array(items) => depth > 0 && forall|i: int|
            0 <= i < items.len() ==> plain(#[trigger] items[i], (depth - 1) as nat),
        JsonView::Object(entries) => depth > 0 && ascending(entries) && forall|i: int|
            0 <= i < entries.len() ==> plain((#[trigger] entries[i]).1, (depth - 1) as nat),
        _ => true,
    }
}

/// The number of which `unsigned` and `signed` are the integers of that kind that it fits, and
/// `text` is the notation.
fn number_of(unsigned: Option<u64>, signed: Option<i64>, text: String) -> (number: Number)
    ensures
        number@ == match (unsigned, signed) {
            (Some(n), _) => NumberView::PosInt(n),
            (None, Some(n)) => NumberView::NegInt(n),
            (None, None) => NumberView::Float(text@),
        },
{
    match (unsigned, signed) {
        (Some(n), _) => Number::PosInt(n),
        (None, Some(n)) => Number::NegInt(n),
        (None, None) => Number::Float(text),
    }
}

/// Turns a `serde_json::Value` into a value of this library, variant by variant.  Nothing is
/// claimed of the result here: the functions that parse and evaluate name what they return as a
/// whole.
#[verifier::external_body]
pub(crate) fn from_serde(value: Value) -> Json {
    match value {
        Value::Null => Json::Null,
        Value::Bool(b) => Json::Bool(b),
        Value::Number(n) => Json::Number(number_of(n.as_u64(), n.as_i64(), n.to_string())),
        Value::String(s) => Json::String(s),
        Value::Array(items) => Json::Array(items.into_iter().map(from_serde).collect()),
        Value::Object(map) => Json::Object(
            StrMap::from_entries(map.into_iter().map(|(k, v)| (k, from_serde(v))).collect()),
        ),
    }
}

/// Turns a value of this library into a `serde_json::Value`, variant by variant.  The text of a
/// number becomes a number again through `serde_json::Number`'s `FromStr`; a text that is no
/// number, or one out of range, becomes null, as `serde_json` does with an infinity.  Nothing is
/// claimed of the result here: the functions that write and evaluate name what they return as a
/// whole.
#[verifier::external_body]
pub(crate) fn to_serde(json: &Json) -> Value {
    match json {
        Json::Null => Value::Null,
        Json::Bool(b) => Value::Bool(*b),
        Json::Number(Number::PosInt(n)) => Value::from(*n),
        Json::Number(Number::NegInt(n)) => Value::from(*n),
        Json::Number(Number::Float(text)) => text.parse().map_or(Value::Null, Value::Number),
        Json::String(s) => Value::String(s.clone()),
        Json::Array(items) => items.iter().map(to_serde).collect(),
        Json::Object(map) => map.entries().iter().map(|e| (e.0.clone(), to_serde(&e.1))).collect(),
    }
}

/// Calls `serde_json::from_str`.  The value that it yields, or the message of its error, is a
/// function of the text alone.
#[verifier::external_body]
fn parse_text(text: &str) -> (parsed: Result<Json, String>)
    ensures
        result_view(parsed) == parsed_json(text@),
{
    serde_json::from_str(text).map(from_serde).map_err(|e| e.to_string())
}

/// Calls `serde_json::to_string`, by way of the `Display` of `serde_json::Value`.  The text is a
/// function of the value alone and holds no line break: within strings line breaks are escaped,
/// and the compact form puts none between tokens.  Of a value without fractions that is nested no
/// deeper than the parser goes, the parser reads the same value back.
#[verifier::external_body]
fn write_text(value: &Json) -> (text: String)
    ensures
        text@ == json_text(value@),
        !text@.contains('\n'),
        plain(value@, nesting()) ==> reads_as(text@, value@),
{
    to_serde(value).to_string()
}

impl Json {
    /// Reads a value from its text.
    pub fn parse(text: &str) -> (parsed: Result<Json, String>)
        ensures
            result_view(parsed) == parsed_json(text@),
    {
        parse_text(text)
    }

    /// The text of this value, in one line.
    pub fn text(&self) -> (text: String)
        ensures
            text@ == json_text(self@),
            !text@.contains('\n'),
            plain(self@, nesting()) ==> reads_as(text@, self@),
    {
        write_text(self)
    }
}

/// The text of the member `key`, where it is a string.
pub open spec fn member_text(value: JsonView, key: Seq<char>) -> Option<Seq<char>> {
    match member(value, key) {
        Some(inner) => text_of(inner),
        None => None,
    }
}

/// The text of the member `key`, where it is a string.
pub fn get_text(value: &Json, key: &str) -> (text: Option<String>)
    ensures
        match text {
            Some(s) => member_text(value@, key@) == Some(s@),
            None => member_text(value@, key@) is None,
        },
{
    match value.get(key) {
        Some(inner) => match inner.as_str() {
            Some(s) => Some(s.to_owned()),
            None => None,
        },
        None => None,
    }
}

/// The object with the given tag and one member that is a string.
pub open spec fn tagged(tag: Seq<char>, key: Seq<char>, text: Seq<char>) -> JsonView {
    JsonView::Object(
        put(
            put(Seq::empty(), "__nixhapi"@, JsonView::String(tag)),
            key,
            JsonView::String(text),
        ),
    )
}

/// What the tag of a tagged value is read from: the member `__nixhapi` of an object, or the first
/// item of a list.
pub open spec fn tag_of(value: JsonView) -> Option<JsonView> {
    match value {
        JsonView::Array(items) => if items.len() > 0 {
            Some(items[0])
        } else {
            None
        },
        _ => member(value, "__nixhapi"@),
    }
}

/// The text under a tag: the member `key` of an object, or the only item that follows the tag in
/// a list.
pub open spec fn tagged_text(value: JsonView, key: Seq<char>) -> Option<Seq<char>> {
    match value {
        JsonView::Array(items) => if items.len() == 2 {
            text_of(items[1])
        } else {
            None
        },
        _ => member_text(value, key),
    }
}

/// What the tag of a tagged value is read from.
pub fn get_tag(value: &Json) -> (tag: Option<&Json>)
    ensures
        match tag {
            Some(tag) => tag_of(value@) == Some(tag@),
            None => tag_of(value@) is None,
        },
{
    match value {
        Json::Array(items) => {
            proof {
                lemma_array_view(*items);
            }
            if items.len() > 0 {
                assert(views(items@)[0] == items@[0]@);
                Some(&items[0])
            } else {
                None
            }
        }
        _ => value.get("__nixhapi"),
    }
}

/// The text under a tag.
pub fn get_tagged_text(value: &Json, key: &str) -> (text: Option<String>)
    ensures
        option_view(text) == tagged_text(value@, key@),
{
    match value {
        Json::Array(items) => {
            proof {
                lemma_array_view(*items);
            }
            if items.len() == 2 {
                assert(views(items@)[1] == items@[1]@);
                match items[1].as_str() {
                    Some(text) => Some(text.to_owned()),
                    None => None,
                }
            } else {
                None
            }
        }
        _ => get_text(value, key),
    }
}

/// The object with the given tag and one member that is a string.
pub fn tagged_object(tag: &str, key: &str, text: &str) -> (object: Json)
    ensures
        object@ == tagged(tag@, key@, text@),
{
    Json::empty_object().with_member("__nixhapi", Json::String(tag.to_owned())).with_member(
        key,
        Json::String(text.to_owned()),
    )
}

/// The members of a tagged object.
pub proof fn lemma_tagged(tag: Seq<char>, key: Seq<char>, text: Seq<char>)
    requires
        key != "__nixhapi"@,
    ensures
        tag_of(tagged(tag, key, text)) == Some(JsonView::String(tag)),
        tagged_text(tagged(tag, key, text), key) == Some(text),
        forall|other: Seq<char>|
            other != key && other != "__nixhapi"@ ==> #[trigger] member_text(
                tagged(tag, key, text),
                other,
            ) is None,
{
    let first = put(Seq::<(Seq<char>, JsonView)>::empty(), "__nixhapi"@, JsonView::String(tag));
    assert forall|other: Seq<char>| true implies #[trigger] member(tagged(tag, key, text), other)
        == if other == key {
        Some(JsonView::String(text))
    } else if other == "__nixhapi"@ {
        Some(JsonView::String(tag))
    } else {
        None
    } by {
        lemma_lookup_put(first, key, JsonView::String(text), other);
        lemma_lookup_put(
            Seq::<(Seq<char>, JsonView)>::empty(),
            "__nixhapi"@,
            JsonView::String(tag),
            other,
        );
    }
}

/// The members of an object whose members are all strings; of anything else none.
pub open spec fn string_members(value: JsonView) -> Seq<(Seq<char>, Seq<char>)> {
    if forall|i: int| 0 <= i < members(value).len() ==> (#[trigger] members(value)[i]).1 is String {
        members(value).map_values(|e: (Seq<char>, JsonView)| (e.0, e.1->String_0))
    } else {
        Seq::empty()
    }
}

/// The members of an object whose members are all strings; of anything else none.
pub fn read_string_members(value: &Json) -> (map: StrMap<String>)
    ensures
        entry_views(map@) == string_members(value@),
        ascending(map@),
{
    let mut strings: StrMap<String> = StrMap::new();
    assert(entry_views(strings@) =~= Seq::empty());
    let map = match value.as_object() {
        Some(map) => map,
        None => {
            assert(members(value@).len() == 0);
            assert(entry_views(strings@) =~= string_members(value@));
            return strings;
        }
    };
    let ghost entries = entry_views(map@);
    let ghost named = entries.map_values(|e: (Seq<char>, JsonView)| (e.0, e.1->String_0));
    let mut i: usize = 0;
    while i < map.len()
        invariant
            i <= map@.len(),
            entries == entry_views(map@),
            ascending(entries),
            members(value@) == entries,
            named == entries.map_values(|e: (Seq<char>, JsonView)| (e.0, e.1->String_0)),
            forall|k: int| 0 <= k < i ==> (#[trigger] entries[k]).1 is String,
            ascending(strings@),
            entry_views(strings@) == named.take(i as int),
        decreases map@.len() - i,
    {
        assert(entries[i as int] == (map@[i as int].0, map@[i as int].1@));
        match map.value_at(i).as_str() {
            Some(text) => {
                let key = map.key_at(i).to_owned();
                let text = text.to_owned();
                proof {
                    lemma_views_put(strings@, key@, text);
                    assert forall|k: int| 0 <= k < i implies text_lt(
                        (#[trigger] named.take(i as int)[k]).0,
                        key@,
                    ) by {
                        assert(text_lt(entries[k].0, entries[i as int].0));
                    }
                    lemma_put_last(named.take(i as int), key@, text@);
                    assert(named.take(i as int).push((key@, text@)) =~= named.take(i + 1));
                }
                strings = strings.put(key, text);
            }
            None => {
                let none: StrMap<String> = StrMap::new();
                assert(entry_views(none@) =~= Seq::empty());
                assert(!(members(value@)[i as int].1 is String));
                return none;
            }
        }
        i = i + 1;
    }
    assert(named.take(i as int) =~= named);
    strings
}

/// The text of a member that has to be a string.
pub open spec fn needed_text(value: JsonView, key: Seq<char>) -> Result<Seq<char>, Seq<char>> {
    match member_text(value, key) {
        Some(text) => Ok(text),
        None => Err("missing field "@ + quoted(key)),
    }
}

/// The text of a member that has to be a string.
pub fn need_text(value: &Json, key: &str) -> (text: Result<String, String>)
    ensures
        result_view(text) == needed_text(value@, key@),
{
    match get_text(value, key) {
        Some(text) => Ok(text),
        None => Err("missing field ".to_owned().concat(quote(key).as_str())),
    }
}

/// The text of a member that may be missing or null.
pub open spec fn optional_text(value: JsonView, key: Seq<char>) -> Result<
    Option<Seq<char>>,
    Seq<char>,
> {
    match member(value, key) {
        None => Ok(None),
        Some(JsonView::Null) => Ok(None),
        Some(JsonView::String(text)) => Ok(Some(text)),
        Some(_) => Err("no string in field "@ + quoted(key)),
    }
}

/// The text of a member that may be missing or null.
pub fn read_optional_text(value: &Json, key: &str) -> (text: Result<Option<String>, String>)
    ensures
        match text {
            Ok(text) => optional_text(value@, key@) == Ok::<Option<Seq<char>>, Seq<char>>(
                option_view(text),
            ),
            Err(message) => optional_text(value@, key@) == Err::<Option<Seq<char>>, Seq<char>>(
                message@,
            ),
        },
{
    match value.get(key) {
        None => Ok(None),
        Some(Json::Null) => Ok(None),
        Some(Json::String(text)) => Ok(Some(text.clone())),
        Some(_) => Err("no string in field ".to_owned().concat(quote(key).as_str())),
    }
}

/// A text, or null for none.
pub open spec fn optional_json(text: Option<Seq<char>>) -> JsonView {
    match text {
        Some(text) => JsonView::String(text),
        None => JsonView::Null,
    }
}

/// A text, or null for none.
pub fn write_optional(text: &Option<String>) -> (value: Json)
    ensures
        value@ == optional_json(option_view(*text)),
{
    match text {
        Some(text) => Json::String(text.clone()),
        None => Json::Null,
    }
}

/// The texts of the first `n` items, which have to be strings.
pub open spec fn texts_from(items: Seq<JsonView>, n: int) -> Result<Seq<Seq<char>>, Seq<char>>
    decreases n,
{
    if n <= 0 {
        Ok(Seq::empty())
    } else {
        match texts_from(items, n - 1) {
            Err(message) => Err(message),
            Ok(read) => match items[n - 1] {
                JsonView::String(text) => Ok(read.push(text)),
                _ => Err("expected a string"@),
            },
        }
    }
}

/// The items of a member that has to be an array.
pub open spec fn needed_items(value: JsonView, key: Seq<char>) -> Result<Seq<JsonView>, Seq<char>> {
    match member(value, key) {
        Some(JsonView::Array(items)) => Ok(items),
        _ => Err("no list in field "@ + quoted(key)),
    }
}

/// The items of a member that has to be an array.
pub fn need_items<'a>(value: &'a Json, key: &str) -> (items: Result<&'a Vec<Json>, String>)
    ensures
        match items {
            Ok(items) => needed_items(value@, key@) == Ok::<Seq<JsonView>, Seq<char>>(
                views(items@),
            ),
            Err(message) => needed_items(value@, key@) == Err::<Seq<JsonView>, Seq<char>>(
                message@,
            ),
        },
{
    match value.get(key) {
        Some(Json::Array(items)) => {
            proof {
                lemma_array_view(*items);
            }
            Ok(items)
        }
        _ => Err("no list in field ".to_owned().concat(quote(key).as_str())),
    }
}

/// The texts of a member that has to be an array of strings.
pub open spec fn needed_texts(value: JsonView, key: Seq<char>) -> Result<
    Seq<Seq<char>>,
    Seq<char>,
> {
    match needed_items(value, key) {
        Ok(items) => texts_from(items, items.len() as int),
        Err(message) => Err(message),
    }
}

proof fn lemma_texts_stop(items: Seq<JsonView>, n: int, m: int)
    requires
        0 <= n <= m,
        texts_from(items, n) is Err,
    ensures
        texts_from(items, m) == texts_from(items, n),
    decreases m - n,
{
    if n < m {
        lemma_texts_stop(items, n, m - 1);
    }
}

/// The texts of a member that has to be an array of strings.
pub fn need_texts(value: &Json, key: &str) -> (texts: Result<Vec<String>, String>)
    ensures
        match texts {
            Ok(texts) => needed_texts(value@, key@) == Ok::<Seq<Seq<char>>, Seq<char>>(
                views(texts@),
            ),
            Err(message) => needed_texts(value@, key@) == Err::<Seq<Seq<char>>, Seq<char>>(
                message@,
            ),
        },
{
    let items = match need_items(value, key) {
        Ok(items) => items,
        Err(message) => {
            return Err(message);
        }
    };
    let ghost all = views(items@);
    let mut texts: Vec<String> = Vec::new();
    let mut i: usize = 0;
    assert(views(texts@) =~= Seq::empty());
    while i < items.len()
        invariant
            i <= items@.len(),
            all == views(items@),
            needed_texts(value@, key@) == texts_from(all, all.len() as int),
            texts_from(all, i as int) == Ok::<Seq<Seq<char>>, Seq<char>>(views(texts@)),
        decreases items.len() - i,
    {
        match &items[i] {
            Json::String(text) => {
                let text = text.clone();
                proof {
                    lemma_views_push(texts@, text);
                }
                texts.push(text);
            }
            _ => {
                proof {
                    lemma_texts_stop(all, i + 1, all.len() as int);
                }
                return Err("expected a string".to_owned());
            }
        }
        i = i + 1;
    }
    Ok(texts)
}

/// The texts as an array of strings.
pub open spec fn texts_json(texts: Seq<Seq<char>>) -> JsonView {
    JsonView::Array(texts.map_values(|text: Seq<char>| JsonView::String(text)))
}

/// The texts as an array of strings.
pub fn write_texts(texts: &Vec<String>) -> (value: Json)
    ensures
        value@ == texts_json(views(texts@)),
{
    let mut items: Vec<Json> = Vec::new();
    let mut i: usize = 0;
    while i < texts.len()
        invariant
            i <= texts@.len(),
            items@.len() == i,
            forall|k: int| 0 <= k < i ==> (#[trigger] items@[k])@ == JsonView::String(texts@[k]@),
        decreases texts.len() - i,
    {
        items.push(Json::String(texts[i].clone()));
        i = i + 1;
    }
    proof {
        lemma_array_view(items);
        assert(views(items@) =~= views(texts@).map_values(
            |text: Seq<char>| JsonView::String(text),
        ));
    }
    Json::Array(items)
}

/// An array of strings is read back as it was written.
pub proof fn lemma_texts_round_trip(texts: Seq<Seq<char>>, n: int)
    requires
        0 <= n <= texts.len(),
    ensures
        texts_from(texts_json(texts)->Array_0, n) == Ok::<Seq<Seq<char>>, Seq<char>>(
            texts.take(n),
        ),
    decreases n,
{
    if n <= 0 {
        assert(texts.take(0) =~= Seq::empty());
    } else {
        lemma_texts_round_trip(texts, n - 1);
        assert(texts_json(texts)->Array_0[n - 1] == JsonView::String(texts[n - 1]));
        assert(texts.take(n - 1).push(texts[n - 1]) =~= texts.take(n));
    }
}

} // verus!
