//! JSON values as plain data.
//!
//! Text is turned into values and back by the `serde_json` crate. What is read from a value, and
//! what is built, happens on [`Json`], whose model is [`JsonView`].
use crate::text::same;
use serde::de::Unexpected;
use vstd::prelude::*;

verus! {

/// A number of the `serde_json` crate.
#[verifier::external_type_specification]
#[verifier::external_body]
pub struct ExNumber(serde_json::Number);

/// A value of the `serde_json` crate.
#[verifier::external_type_specification]
#[verifier::external_body]
pub struct ExValue(serde_json::Value);

/// A number that is not an integer, kept as it was read. Only a value that has been read gives one.
#[derive(Debug, PartialEq)]
pub struct Decimal {
    number: serde_json::Number,
}

impl Decimal {
    /// A copy of the number.
    fn copy(&self) -> (copy: Decimal)
        ensures
            copy == *self,
    {
        Decimal { number: self.number.clone() }
    }
}

/// A JSON value.
#[derive(Debug, PartialEq)]
pub enum Json {
    Null,
    Bool(bool),
    Integer(i128),
    Decimal(Decimal),
    Text(String),
    Array(Vec<Json>),
    /// The members in the order in which they stand.
    Object(Vec<(String, Json)>),
}

/// The model of a JSON value.
pub enum JsonView {
    Null,
    Bool(bool),
    Integer(int),
    Decimal(Decimal),
    Text(Seq<char>),
    Array(Seq<JsonView>),
    Object(Seq<(Seq<char>, JsonView)>),
}

/// The model of a value.
pub open spec fn json_view(json: Json) -> JsonView
    decreases json,
{
    match json {
        Json::Null => JsonView::Null,
        Json::Bool(flag) => JsonView::Bool(flag),
        Json::Integer(number) => JsonView::Integer(number as int),
        Json::Decimal(number) => JsonView::Decimal(number),
        Json::Text(string) => JsonView::Text(string@),
        Json::Array(items) => JsonView::Array(
            Seq::new(
                items@.len(),
                |i: int|
                    if 0 <= i < items@.len() {
                        json_view(items@[i])
                    } else {
                        JsonView::Null
                    },
            ),
        ),
        Json::Object(members) => JsonView::Object(
            Seq::new(
                members@.len(),
                |i: int|
                    if 0 <= i < members@.len() {
                        (members@[i].0@, json_view(members@[i].1))
                    } else {
                        (Seq::empty(), JsonView::Null)
                    },
            ),
        ),
    }
}

impl View for Json {
    type V = JsonView;

    open spec fn view(&self) -> JsonView {
        json_view(*self)
    }
}

/// The models of a list of values.
pub open spec fn items_view(items: Seq<Json>) -> Seq<JsonView> {
    Seq::new(items.len(), |i: int| items[i]@)
}

/// The models of a list of members.
pub open spec fn members_view(members: Seq<(String, Json)>) -> Seq<(Seq<char>, JsonView)> {
    Seq::new(members.len(), |i: int| (members[i].0@, members[i].1@))
}

/// The model of an optional value.
pub open spec fn opt_json(json: Option<Json>) -> Option<JsonView> {
    match json {
        Some(j) => Some(j@),
        None => None,
    }
}

/// The value of the first member named `key` in a list of members.
pub open spec fn member_in(members: Seq<(Seq<char>, JsonView)>, key: Seq<char>) -> Option<JsonView>
    decreases members.len(),
{
    if members.len() == 0 {
        None
    } else if members[0].0 == key {
        Some(members[0].1)
    } else {
        member_in(members.skip(1), key)
    }
}

/// The member of an object named `key`; other values have no members.
pub open spec fn member(value: JsonView, key: Seq<char>) -> Option<JsonView> {
    match value {
        JsonView::Object(members) => member_in(members, key),
        _ => None,
    }
}

/// The characters of a string value.
pub open spec fn string_in(value: JsonView) -> Option<Seq<char>> {
    match value {
        JsonView::Text(string) => Some(string),
        _ => None,
    }
}

/// The member `key` where it is a string.
pub open spec fn string_member(value: JsonView, key: Seq<char>) -> Option<Seq<char>> {
    match member(value, key) {
        Some(found) => string_in(found),
        None => None,
    }
}

/// The characters of the member `key` where it is a string, else none.
pub open spec fn string_member_or_empty(value: JsonView, key: Seq<char>) -> Seq<char> {
    match string_member(value, key) {
        Some(string) => string,
        None => Seq::empty(),
    }
}

/// The strings of an array of strings.
pub open spec fn strings_in(value: JsonView) -> Option<Seq<Seq<char>>> {
    match value {
        JsonView::Array(items) => if forall|i: int|
            0 <= i < items.len() ==> (#[trigger] items[i]) is Text {
            Some(Seq::new(items.len(), |i: int| items[i]->Text_0))
        } else {
            None
        },
        _ => None,
    }
}

/// `members` with `key` set to `value`: in its place where it is there, else at the end.
pub open spec fn with_member(
    members: Seq<(Seq<char>, JsonView)>,
    key: Seq<char>,
    value: JsonView,
) -> Seq<(Seq<char>, JsonView)>
    decreases members.len(),
{
    if members.len() == 0 {
        seq![(key, value)]
    } else if members[0].0 == key {
        seq![(key, value)] + members.skip(1)
    } else {
        seq![members[0]] + with_member(members.skip(1), key, value)
    }
}

/// The members of a list, each name kept once: where it stood first, with its last value.
pub open spec fn distinct_members(members: Seq<(Seq<char>, JsonView)>) -> Seq<
    (Seq<char>, JsonView),
>
    decreases members.len(),
{
    if members.len() == 0 {
        Seq::empty()
    } else {
        with_member(
            distinct_members(members.drop_last()),
            members.last().0,
            members.last().1,
        )
    }
}

/// The value in the form in which a document holds it: the names of an object are distinct, and
/// an integer is one of 64 bits, with null in place of any other.
pub open spec fn canonical(value: JsonView) -> JsonView
    decreases value,
{
    match value {
        JsonView::Integer(number) => if i64::MIN <= number <= u64::MAX {
            value
        } else {
            JsonView::Null
        },
        JsonView::Array(items) => JsonView::Array(
            Seq::new(
                items.len(),
                |i: int|
                    if 0 <= i < items.len() {
                        canonical(items[i])
                    } else {
                        JsonView::Null
                    },
            ),
        ),
        JsonView::Object(members) => JsonView::Object(
            distinct_members(canonical_members(members)),
        ),
        _ => value,
    }
}

/// The members of an object with their values in the form in which a document holds them.
pub open spec fn canonical_members(members: Seq<(Seq<char>, JsonView)>) -> Seq<
    (Seq<char>, JsonView),
>
    decreases members,
{
    Seq::new(
        members.len(),
        |i: int|
            if 0 <= i < members.len() {
                (members[i].0, canonical(members[i].1))
            } else {
                (Seq::empty(), JsonView::Null)
            },
    )
}

/// True for a value whose text reads back as the value itself: it nests at most `depth` deep,
/// every number is an integer, and no member has the name that marks verbatim text.
pub open spec fn reads_back(value: JsonView, depth: nat) -> bool
    decreases value,
{
    match value {
        JsonView::Decimal(_) => false,
        JsonView::Array(items) => {
            &&& depth > 0
            &&& forall|i: int|
                0 <= i < items.len() ==> reads_back(#[trigger] items[i], (depth - 1) as nat)
        },
        JsonView::Object(members) => {
            &&& depth > 0
            &&& forall|i: int|
                0 <= i < members.len() ==> {
                    &&& (#[trigger] members[i]).0 != "$serde_json::private::RawValue"@
                    &&& reads_back(members[i].1, (depth - 1) as nat)
                }
        },
        _ => true,
    }
}

/// How deep a document may nest.
pub const MAX_DEPTH: u64 = 127;

/// What a value of the `serde_json` crate holds.
pub uninterp spec fn value_contents(value: serde_json::Value) -> JsonView;

/// What a text holds as a JSON document, or the message that says why it is none.
pub uninterp spec fn document(text: Seq<char>) -> Result<JsonView, Seq<char>>;

/// What a sequence of bytes holds as a JSON document, where it is one.
pub uninterp spec fn document_of_bytes(bytes: Seq<u8>) -> Option<JsonView>;

/// The compact text of a value.
pub uninterp spec fn json_text(value: JsonView) -> Seq<char>;

/// The compact text of a value as UTF-8 bytes.
pub uninterp spec fn json_bytes(value: JsonView) -> Seq<u8>;

/// What is said of a value where something else was expected.
pub uninterp spec fn type_fault_text(value: JsonView, expected: Seq<char>) -> Seq<char>;

/// `serde_json::Number::clone`: the copy is the same number.
pub assume_specification[ <serde_json::Number as Clone>::clone ](
    number: &serde_json::Number,
) -> (copy: serde_json::Number)
    ensures
        copy == *number,
;

/// `serde_json::from_str` into a `serde_json::Value`: the result is a function of the text.
#[verifier::external_body]
fn value_from_text(text: &str) -> (result: Result<serde_json::Value, String>)
    ensures
        match result {
            Ok(value) => document(text@) == Ok::<JsonView, Seq<char>>(value_contents(value)),
            Err(message) => document(text@) == Err::<JsonView, Seq<char>>(message@),
        },
{
    serde_json::from_str(text).map_err(|error| error.to_string())
}

/// `serde_json::from_slice` into a `serde_json::Value`: the result is a function of the bytes.
#[verifier::external_body]
fn value_from_bytes(bytes: &[u8]) -> (result: Option<serde_json::Value>)
    ensures
        match result {
            Some(value) => document_of_bytes(bytes@) == Some(value_contents(value)),
            None => document_of_bytes(bytes@) is None,
        },
{
    serde_json::from_slice(bytes).ok()
}

/// `serde_json::to_string` of a `serde_json::Value`: it succeeds, as a value has no names but
/// strings and its own `Serialize` never fails, and the text is a function of what it holds. The
/// compact form writes no line feed, and one in a string as an escape.
#[verifier::external_body]
fn text_from_value(value: &serde_json::Value) -> (result: Result<String, String>)
    ensures
        result is Ok,
        result matches Ok(text) ==> text@ == json_text(value_contents(*value)),
        result matches Ok(text) ==> !text@.contains('\n'),
{
    serde_json::to_string(value).map_err(|error| error.to_string())
}

/// `serde_json::to_vec` of a `serde_json::Value`: it succeeds, as a value has no names but
/// strings and its own `Serialize` never fails, the bytes are a function of what it holds, and
/// `serde_json::from_slice` reads what it holds back from them, but for numbers that are not
/// integers, for what nests deeper than the reader goes, and for objects that its reader takes
/// for verbatim text.
#[verifier::external_body]
fn bytes_from_value(value: &serde_json::Value) -> (result: Result<Vec<u8>, String>)
    ensures
        result is Ok,
        result matches Ok(bytes) ==> bytes@ == json_bytes(value_contents(*value)),
        result matches Ok(bytes) ==> (reads_back(value_contents(*value), MAX_DEPTH as nat)
            ==> document_of_bytes(bytes@) == Some(value_contents(*value))),
{
    serde_json::to_vec(value).map_err(|error| error.to_string())
}

/// Takes a `serde_json::Value` apart, variant by variant; `Number::as_i128` tells the integers from
/// the other numbers. What it holds is in canonical form: the map of an object has each name once,
/// and its integers are those of 64 bits.
#[verifier::external_body]
fn json_from_value(value: serde_json::Value) -> (json: Json)
    ensures
        json@ == value_contents(value),
        canonical(json@) == json@,
{
    match value {
        serde_json::Value::Null => Json::Null,
        serde_json::Value::Bool(flag) => Json::Bool(flag),
        serde_json::Value::Number(number) => match number.as_i128() {
            Some(integer) => Json::Integer(integer),
            None => Json::Decimal(Decimal { number }),
        },
        serde_json::Value::String(string) => Json::Text(string),
        serde_json::Value::Array(list) => Json::Array(list.into_iter().map(json_from_value).collect()),
        serde_json::Value::Object(map) => {
            Json::Object(map.into_iter().map(|(key, value)| (key, json_from_value(value))).collect())
        },
    }
}

/// Puts a `serde_json::Value` together, variant by variant. `Map::from_iter` keeps each name
/// where it stood first, with its last value, and `Number::from_i128` takes the integers of 64
/// bits only. A decimal is the number that [`json_from_value`] has found to be no integer.
#[verifier::external_body]
fn value_from_json(json: Json) -> (value: serde_json::Value)
    ensures
        value_contents(value) == canonical(json@),
{
    match json {
        Json::Null => serde_json::Value::Null,
        Json::Bool(flag) => serde_json::Value::Bool(flag),
        Json::Integer(integer) => serde_json::Number::from_i128(integer).into(),
        Json::Decimal(decimal) => serde_json::Value::Number(decimal.number),
        Json::Text(string) => serde_json::Value::String(string),
        Json::Array(list) => serde_json::Value::Array(list.into_iter().map(value_from_json).collect()),
        Json::Object(list) => {
            let members = list.into_iter().map(|(key, json)| (key, value_from_json(json)));
            serde_json::Value::Object(members.collect())
        },
    }
}

/// Calls `invalid_type` of `serde::de::Error` for `serde_json::Error`, with the value as what was
/// found: the text is a function of what the value holds and of what was expected.
#[verifier::external_body]
fn invalid_type(value: &serde_json::Value, expected: &str) -> (message: String)
    ensures
        message@ == type_fault_text(value_contents(*value), expected@),
{
    let found = match value {
        serde_json::Value::Null => Unexpected::Unit,
        serde_json::Value::Bool(flag) => Unexpected::Bool(*flag),
        serde_json::Value::Number(number) => match (number.as_u64(), number.as_i64()) {
            (Some(integer), _) => Unexpected::Unsigned(integer),
            (None, Some(integer)) => Unexpected::Signed(integer),
            (None, None) => Unexpected::Float(number.as_f64().unwrap_or_default()),
        },
        serde_json::Value::String(string) => Unexpected::Str(string),
        serde_json::Value::Array(_) => Unexpected::Seq,
        serde_json::Value::Object(_) => Unexpected::Map,
    };
    let error: serde_json::Error = serde::de::Error::invalid_type(found, &expected);
    error.to_string()
}

/// What is said of a value where something else was expected.
pub fn type_fault(json: &Json, expected: &str) -> (message: String)
    ensures
        message@ == type_fault_text(canonical(json@), expected@),
{
    invalid_type(&value_from_json(json.copy()), expected)
}

/// Reads a document from text.
pub fn parse(text: &str) -> (result: Result<Json, String>)
    ensures
        match result {
            Ok(json) => document(text@) == Ok::<JsonView, Seq<char>>(json@) && canonical(json@)
                == json@,
            Err(message) => document(text@) == Err::<JsonView, Seq<char>>(message@),
        },
{
    match value_from_text(text) {
        Ok(value) => Ok(json_from_value(value)),
        Err(message) => Err(message),
    }
}

/// Reads a document from bytes.
pub fn parse_bytes(bytes: &[u8]) -> (result: Option<Json>)
    ensures
        match result {
            Some(json) => document_of_bytes(bytes@) == Some(json@) && canonical(json@) == json@,
            None => document_of_bytes(bytes@) is None,
        },
{
    match value_from_bytes(bytes) {
        Some(value) => Some(json_from_value(value)),
        None => None,
    }
}

/// The compact text of a value.
pub fn to_text(json: Json) -> (text: String)
    ensures
        text@ == json_text(canonical(json@)),
        !text@.contains('\n'),
{
    match text_from_value(&value_from_json(json)) {
        Ok(text) => text,
        Err(message) => message,
    }
}

/// The compact text of a value as bytes.
pub fn to_bytes(json: Json) -> (bytes: Vec<u8>)
    ensures
        bytes@ == json_bytes(canonical(json@)),
        reads_back(canonical(json@), MAX_DEPTH as nat) ==> document_of_bytes(bytes@) == Some(
            canonical(json@),
        ),
{
    match bytes_from_value(&value_from_json(json)) {
        Ok(bytes) => bytes,
        Err(_) => Vec::new(),
    }
}

/// An object made of `members`.
pub fn object(members: Vec<(String, Json)>) -> (json: Json)
    ensures
        json@ == JsonView::Object(members_view(members@)),
{
    let json = Json::Object(members);
    assert(json@->Object_0 =~= members_view(members@));
    json
}

/// An array made of `items`.
pub fn array(items: Vec<Json>) -> (json: Json)
    ensures
        json@ == JsonView::Array(items_view(items@)),
{
    let json = Json::Array(items);
    assert(json@->Array_0 =~= items_view(items@));
    json
}

/// A string value.
pub fn text(string: &str) -> (json: Json)
    ensures
        json@ == JsonView::Text(string@),
{
    Json::Text(string.to_owned())
}

/// Adds the member `key` at the end of `members`.
pub fn put(members: &mut Vec<(String, Json)>, key: &str, value: Json)
    ensures
        members_view(final(members)@) == members_view(old(members)@).push((key@, value@)),
{
    members.push((key.to_owned(), value));
    assert(members_view(members@) =~= members_view(old(members)@).push((key@, value@)));
}

/// Sets a member of an object: in its place where it is there, else at the end.
pub fn set(members: &mut Vec<(String, Json)>, key: &str, value: Json)
    ensures
        members_view(final(members)@) == with_member(members_view(old(members)@), key@, value@),
{
    let ghost before = members_view(members@);
    let mut at: usize = 0;
    while at < members.len() && !same(members[at].0.as_str(), key)
        invariant
            at <= members@.len(),
            before == members_view(members@),
            members@ == old(members)@,
            forall|i: int| 0 <= i < at ==> (#[trigger] before[i]).0 != key@,
        decreases members@.len() - at,
    {
        assert(before[at as int].0 == members@[at as int].0@);
        at += 1;
    }
    if at < members.len() {
        proof {
            lemma_with_member_at(before, key@, value@, at as int);
        }
        members.set(at, (key.to_owned(), value));
        assert(members_view(members@) =~= before.update(at as int, (key@, value@)));
    } else {
        proof {
            lemma_with_member(before, key@, value@);
        }
        put(members, key, value);
    }
}

/// Where the first member named `key` stands, or the number of members.
fn find_member(members: &Vec<(String, Json)>, key: &str) -> (at: usize)
    ensures
        at <= members@.len(),
        at < members@.len() ==> member_in(members_view(members@), key@) == Some(
            members@[at as int].1@,
        ),
        at == members@.len() ==> member_in(members_view(members@), key@) is None,
{
    let mut at: usize = 0;
    let ghost all = members_view(members@);
    assert(all.skip(0) =~= all);
    while at < members.len()
        invariant
            at <= members@.len(),
            all == members_view(members@),
            member_in(all, key@) == member_in(all.skip(at as int), key@),
        decreases members@.len() - at,
    {
        if same(members[at].0.as_str(), key) {
            return at;
        }
        assert(all.skip(at as int).skip(1) =~= all.skip(at + 1));
        at += 1;
    }
    at
}

/// Reads an array of strings.
pub fn decode_strings(value: &Json) -> (found: Option<Vec<String>>)
    ensures
        match found {
            Some(list) => strings_in(value@) == Some(crate::text::texts(list@)),
            None => strings_in(value@) is None,
        },
{
    match value {
        Json::Array(items) => {
            let ghost all = items_view(items@);
            assert(value@->Array_0 =~= all);
            let mut list: Vec<String> = Vec::new();
            let mut index: usize = 0;
            while index < items.len()
                invariant
                    index <= items@.len(),
                    all == items_view(items@),
                    value@ == JsonView::Array(all),
                    list@.len() == index,
                    forall|i: int|
                        0 <= i < index ==> (#[trigger] all[i]) is Text && list@[i]@
                            == all[i]->Text_0,
                decreases items@.len() - index,
            {
                assert(all[index as int] == items@[index as int]@);
                match items[index].as_str() {
                    Some(string) => list.push(string.to_owned()),
                    None => {
                        assert(!(all[index as int] is Text));
                        return None;
                    },
                }
                index += 1;
            }
            assert(crate::text::texts(list@) =~= Seq::new(all.len(), |i: int| all[i]->Text_0));
            Some(list)
        },
        _ => None,
    }
}

impl Json {
    /// The member named `key`.
    pub fn get(&self, key: &str) -> (found: Option<&Json>)
        ensures
            match found {
                Some(value) => member(self@, key@) == Some(value@),
                None => member(self@, key@) is None,
            },
    {
        match self {
            Json::Object(members) => {
                assert(self@->Object_0 =~= members_view(members@));
                let at = find_member(members, key);
                if at < members.len() {
                    Some(&members[at].1)
                } else {
                    None
                }
            },
            _ => None,
        }
    }

    /// The member named `key`, taken out of the value.
    pub fn take(self, key: &str) -> (found: Option<Json>)
        ensures
            opt_json(found) == member(self@, key@),
    {
        match self {
            Json::Object(list) => {
                let mut members = list;
                assert(self@->Object_0 =~= members_view(members@));
                let at = find_member(&members, key);
                if at < members.len() {
                    let (_, value) = members.swap_remove(at);
                    Some(value)
                } else {
                    None
                }
            },
            _ => None,
        }
    }

    /// The string, where the value is one.
    pub fn as_str(&self) -> (found: Option<&str>)
        ensures
            match found {
                Some(string) => string_in(self@) == Some(string@),
                None => string_in(self@) is None,
            },
    {
        match self {
            Json::Text(string) => Some(string.as_str()),
            _ => None,
        }
    }

    /// The member named `key`, where it is a string.
    pub fn string_member(&self, key: &str) -> (found: Option<String>)
        ensures
            crate::text::opt_text(found) == string_member(self@, key@),
    {
        match self.get(key) {
            Some(value) => match value.as_str() {
                Some(string) => Some(string.to_owned()),
                None => None,
            },
            None => None,
        }
    }

    /// The member named `key` where it is a string, else the empty string.
    pub fn string_member_or_empty(&self, key: &str) -> (string: String)
        ensures
            string@ == string_member_or_empty(self@, key@),
    {
        match self.string_member(key) {
            Some(string) => string,
            None => String::new(),
        }
    }

    /// True for null.
    pub fn is_null(&self) -> (null: bool)
        ensures
            null == (self@ is Null),
    {
        match self {
            Json::Null => true,
            _ => false,
        }
    }

    /// A copy of the value.
    pub fn copy(&self) -> (json: Json)
        ensures
            json@ == self@,
        decreases self,
    {
        match self {
            Json::Null => Json::Null,
            Json::Bool(flag) => Json::Bool(*flag),
            Json::Integer(number) => Json::Integer(*number),
            Json::Decimal(decimal) => Json::Decimal(decimal.copy()),
            Json::Text(string) => Json::Text(string.clone()),
            Json::Array(items) => {
                let mut copies: Vec<Json> = Vec::new();
                let mut index: usize = 0;
                while index < items.len()
                    invariant
                        index <= items@.len(),
                        *self == Json::Array(*items),
                        copies@.len() == index,
                        forall|i: int| 0 <= i < index ==> (#[trigger] copies@[i])@ == items@[i]@,
                    decreases items@.len() - index,
                {
                    assert(decreases_to!(self => (self->Array_0)@[index as int]));
                    copies.push(items[index].copy());
                    index += 1;
                }
                let json = Json::Array(copies);
                assert(json@->Array_0 =~= self@->Array_0);
                json
            },
            Json::Object(members) => {
                let mut copies: Vec<(String, Json)> = Vec::new();
                let mut index: usize = 0;
                while index < members.len()
                    invariant
                        index <= members@.len(),
                        *self == Json::Object(*members),
                        copies@.len() == index,
                        forall|i: int|
                            0 <= i < index ==> (#[trigger] copies@[i]).0@ == members@[i].0@
                                && copies@[i].1@ == members@[i].1@,
                    decreases members@.len() - index,
                {
                    assert(decreases_to!(self => (self->Object_0)@[index as int].1));
                    copies.push((members[index].0.clone(), members[index].1.copy()));
                    index += 1;
                }
                let json = Json::Object(copies);
                assert(json@->Object_0 =~= self@->Object_0);
                json
            },
        }
    }
}

/// `with_member` replaces the value where the name stands first.
proof fn lemma_with_member_at(
    members: Seq<(Seq<char>, JsonView)>,
    key: Seq<char>,
    value: JsonView,
    at: int,
)
    requires
        0 <= at < members.len(),
        members[at].0 == key,
        forall|i: int| 0 <= i < at ==> (#[trigger] members[i]).0 != key,
    ensures
        with_member(members, key, value) == members.update(at, (key, value)),
    decreases at,
{
    if at > 0 {
        let rest = members.skip(1);
        assert(rest[at - 1] == members[at]);
        assert forall|i: int| 0 <= i < at - 1 implies (#[trigger] rest[i]).0 != key by {
            assert(rest[i] == members[i + 1]);
        }
        assert(members[0].0 != key);
        lemma_with_member_at(rest, key, value, at - 1);
    }
    assert(with_member(members, key, value) =~= members.update(at, (key, value)));
}

/// `with_member` replaces the value of a name that is there, and else adds it at the end.
proof fn lemma_with_member(members: Seq<(Seq<char>, JsonView)>, key: Seq<char>, value: JsonView)
    ensures
        with_member(members, key, value).len() == members.len() || with_member(
            members,
            key,
            value,
        ).len() == members.len() + 1,
        with_member(members, key, value).len() == members.len() + 1 ==> with_member(
            members,
            key,
            value,
        ) == members.push((key, value)),
        (forall|i: int| 0 <= i < members.len() ==> (#[trigger] members[i]).0 != key)
            ==> with_member(members, key, value) == members.push((key, value)),
    decreases members.len(),
{
    if members.len() > 0 {
        if members[0].0 != key {
            let rest = members.skip(1);
            lemma_with_member(rest, key, value);
            if forall|i: int| 0 <= i < members.len() ==> (#[trigger] members[i]).0 != key {
                assert forall|i: int| 0 <= i < rest.len() implies (#[trigger] rest[i]).0 != key by {
                    assert(rest[i] == members[i + 1]);
                }
            }
            if with_member(rest, key, value) == rest.push((key, value)) {
                assert(with_member(members, key, value) =~= members.push((key, value)));
            }
        }
    } else {
        assert(with_member(members, key, value) =~= members.push((key, value)));
    }
}

/// A list that keeps its length when each name is kept once is not changed by that.
pub proof fn lemma_distinct_of_same_length(members: Seq<(Seq<char>, JsonView)>)
    ensures
        distinct_members(members).len() <= members.len(),
        distinct_members(members).len() == members.len() ==> distinct_members(members) == members,
    decreases members.len(),
{
    if members.len() > 0 {
        let rest = members.drop_last();
        lemma_distinct_of_same_length(rest);
        lemma_with_member(distinct_members(rest), members.last().0, members.last().1);
        if distinct_members(members).len() == members.len() {
            assert(rest.push(members.last()) =~= members);
        }
    }
}

/// A list in which each name stands once is not changed when each name is kept once.
pub proof fn lemma_distinct_members(members: Seq<(Seq<char>, JsonView)>)
    requires
        forall|i: int, j: int|
            0 <= i < j < members.len() ==> (#[trigger] members[i]).0 != (#[trigger] members[j]).0,
    ensures
        distinct_members(members) == members,
    decreases members.len(),
{
    if members.len() > 0 {
        let rest = members.drop_last();
        assert forall|i: int, j: int| 0 <= i < j < rest.len() implies (#[trigger] rest[i]).0 != (
        #[trigger] rest[j]).0 by {
            assert(members[i].0 != members[j].0);
        }
        lemma_distinct_members(rest);
        assert forall|i: int| 0 <= i < rest.len() implies (#[trigger] rest[i]).0
            != members.last().0 by {
            assert(members[i].0 != members[members.len() - 1].0);
        }
        lemma_with_member(rest, members.last().0, members.last().1);
        assert(rest.push(members.last()) =~= members);
    } else {
        assert(distinct_members(members) =~= members);
    }
}

/// An object with distinct names and values in canonical form is in canonical form.
pub proof fn lemma_canonical_object(members: Seq<(Seq<char>, JsonView)>)
    requires
        distinct_members(members) == members,
        forall|i: int|
            0 <= i < members.len() ==> canonical((#[trigger] members[i]).1) == members[i].1,
    ensures
        canonical(JsonView::Object(members)) == JsonView::Object(members),
{
    assert(canonical_members(members) =~= members);
}

/// A member that is found stands somewhere in the list.
pub proof fn lemma_member_in(members: Seq<(Seq<char>, JsonView)>, key: Seq<char>) -> (at: int)
    requires
        member_in(members, key) is Some,
    ensures
        0 <= at < members.len(),
        members[at].0 == key,
        members[at].1 == member_in(members, key)->0,
    decreases members.len(),
{
    if members[0].0 == key {
        0
    } else {
        let at = lemma_member_in(members.skip(1), key);
        at + 1
    }
}

/// A member at the end is found where no earlier one has its name.
pub proof fn lemma_member_in_push(
    members: Seq<(Seq<char>, JsonView)>,
    key: Seq<char>,
    value: JsonView,
    name: Seq<char>,
)
    ensures
        member_in(members.push((key, value)), name) == if member_in(members, name) is Some {
            member_in(members, name)
        } else if key == name {
            Some(value)
        } else {
            None
        },
    decreases members.len(),
{
    let longer = members.push((key, value));
    if members.len() > 0 {
        assert(longer[0] == members[0]);
        assert(longer.skip(1) =~= members.skip(1).push((key, value)));
        lemma_member_in_push(members.skip(1), key, value, name);
    } else {
        assert(longer.skip(1) =~= Seq::empty());
        assert(member_in(longer.skip(1), name) is None);
    }
}

/// The first member with a name is the one that is found.
pub proof fn law_first_member_is_found(members: Seq<(Seq<char>, JsonView)>, at: int)
    requires
        0 <= at < members.len(),
        forall|i: int| 0 <= i < at ==> (#[trigger] members[i]).0 != members[at].0,
    ensures
        member(JsonView::Object(members), members[at].0) == Some(members[at].1),
    decreases at,
{
    if at > 0 {
        assert(members[0].0 != members[at].0);
        let rest = members.skip(1);
        assert forall|i: int| 0 <= i < at - 1 implies (#[trigger] rest[i]).0 != rest[at - 1].0 by {
            assert(rest[i] == members[i + 1]);
        }
        law_first_member_is_found(rest, at - 1);
    }
}

/// A name that no member has is not found, and values that are no objects have no members.
pub proof fn law_missing_members_are_not_found(value: JsonView, key: Seq<char>)
    requires
        match value {
            JsonView::Object(members) => forall|i: int|
                0 <= i < members.len() ==> (#[trigger] members[i]).0 != key,
            _ => true,
        },
    ensures
        member(value, key) is None,
    decreases value,
{
    if let JsonView::Object(members) = value {
        if member_in(members, key) is Some {
            let at = lemma_member_in(members, key);
            assert(members[at].0 == key);
        }
    }
}

/// The strings of an array of strings are read, all of them in their order; nothing else gives
/// strings.
pub proof fn law_lists_of_strings_are_read(strings: Seq<Seq<char>>, items: Seq<JsonView>, at: int)
    ensures
        strings_in(JsonView::Array(Seq::new(strings.len(), |i: int| JsonView::Text(strings[i]))))
            == Some(strings),
        0 <= at < items.len() && !(items[at] is Text) ==> strings_in(JsonView::Array(items))
            is None,
{
    let value = Seq::new(strings.len(), |i: int| JsonView::Text(strings[i]));
    assert(strings_in(JsonView::Array(value))->0 =~= strings);
}

/// A member that is set has its new value, and no other one changes.
pub proof fn law_setting_a_member_changes_no_other(
    members: Seq<(Seq<char>, JsonView)>,
    key: Seq<char>,
    value: JsonView,
    other: Seq<char>,
)
    ensures
        member(JsonView::Object(with_member(members, key, value)), key) == Some(value),
        other != key ==> member(JsonView::Object(with_member(members, key, value)), other)
            == member(JsonView::Object(members), other),
        with_member(members, key, value).len() <= members.len() + 1,
        forall|i: int|
            0 <= i < members.len() ==> (#[trigger] with_member(members, key, value)[i]).0
                == members[i].0,
    decreases members.len(),
{
    if members.len() > 0 {
        let rest = members.skip(1);
        law_setting_a_member_changes_no_other(rest, key, value, other);
        lemma_with_member(rest, key, value);
        let after = with_member(members, key, value);
        if members[0].0 == key {
            assert(after.skip(1) =~= rest);
        } else {
            assert(after.skip(1) =~= with_member(rest, key, value));
        }
        assert forall|i: int| 0 <= i < members.len() implies (#[trigger] after[i]).0
            == members[i].0 by {
            if i > 0 {
                if members[0].0 == key {
                    assert(after[i] == rest[i - 1]);
                } else {
                    assert(after[i] == with_member(rest, key, value)[i - 1]);
                    assert(rest[i - 1] == members[i]);
                }
            }
        }
    } else {
        assert(with_member(members, key, value).skip(1) =~= members);
    }
}

/// A string member is read where it is a string, and is empty or missing where it is not.
pub proof fn law_string_members_are_strings(value: JsonView, key: Seq<char>, string: Seq<char>)
    ensures
        member(value, key) == Some(JsonView::Text(string)) ==> string_member(value, key) == Some(
            string,
        ) && string_member_or_empty(value, key) == string,
        member(value, key) is None ==> string_member(value, key) is None
            && string_member_or_empty(value, key) == Seq::<char>::empty(),
        member(value, key) matches Some(found) && !(found is Text) ==> string_member(value, key)
            is None && string_member_or_empty(value, key) == Seq::<char>::empty(),
{
}

} // verus!
