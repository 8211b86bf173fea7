//! Digests of files and configurations.
use crate::fstar::config::{FStarConfig, FStarConfigView};
use crate::json::{self, Json, JsonView};
use crate::session::identifier;
use crate::text;
use vstd::prelude::*;

verus! {

/// The hexadecimal text of the SHA-256 digest of `bytes`.
pub uninterp spec fn sha256_text(bytes: Seq<u8>) -> Seq<char>;

/// Calls `sha2::Sha256::digest` and writes the 32 bytes that it returns as hexadecimal digits in
/// lower case. The digest depends on the bytes alone; nothing is said of which bytes share one.
#[verifier::external_body]
fn hex_digest(bytes: &[u8]) -> (digest: String)
    ensures
        digest@ == sha256_text(bytes@),
        digest@.len() == 64,
        forall|i: int| 0 <= i < digest@.len() ==> identifier::is_hex_digit(#[trigger] digest@[i]),
{
    format!("{:x}", <sha2::Sha256 as sha2::Digest>::digest(bytes))
}

/// The digest of a text: that of its UTF-8 bytes.
pub open spec fn hash_of(contents: Seq<char>) -> Seq<char> {
    sha256_text(vstd::utf8::encode_utf8(contents))
}

/// The digest of a text.
pub fn content_hash(contents: &str) -> (digest: String)
    ensures
        digest@ == hash_of(contents@),
        digest@.len() == 64,
{
    hex_digest(contents.as_bytes())
}

/// The digest of the bytes of a file.
pub fn hash_bytes(contents: &Vec<u8>) -> (digest: String)
    ensures
        digest@ == sha256_text(contents@),
        digest@.len() == 64,
{
    hex_digest(contents.as_slice())
}

/// A list of strings as a value.
pub open spec fn strings_value(strings: Seq<Seq<char>>) -> JsonView {
    JsonView::Array(Seq::new(strings.len(), |i: int| JsonView::Text(strings[i])))
}

/// A string that may be missing as a value.
pub open spec fn optional_value(string: Option<Seq<char>>) -> JsonView {
    match string {
        Some(text) => JsonView::Text(text),
        None => JsonView::Null,
    }
}

/// A configuration as a value.
pub open spec fn config_value(config: FStarConfigView) -> JsonView {
    JsonView::Object(
        seq![
            ("include_dirs"@, strings_value(config.include_dirs)),
            ("options"@, strings_value(config.options)),
            ("fstar_exe"@, optional_value(config.fstar_exe)),
            ("cwd"@, optional_value(config.cwd)),
        ],
    )
}

/// The digest by which configurations are told apart.
pub open spec fn fingerprint_of(config: FStarConfigView) -> Seq<char> {
    hash_of(json::json_text(json::canonical(config_value(config))))
}

/// A list of strings as a value.
pub fn strings_to_json(strings: &Vec<String>) -> (value: Json)
    ensures
        value@ == strings_value(text::texts(strings@)),
{
    let mut items: Vec<Json> = Vec::new();
    let mut index: usize = 0;
    while index < strings.len()
        invariant
            index <= strings@.len(),
            items@.len() == index,
            forall|i: int|
                0 <= i < index ==> (#[trigger] items@[i])@ == JsonView::Text(strings@[i]@),
        decreases strings@.len() - index,
    {
        items.push(json::text(strings[index].as_str()));
        index += 1;
    }
    assert(json::items_view(items@) =~= strings_value(text::texts(strings@))->Array_0);
    json::array(items)
}

/// A string that may be missing as a value.
pub fn optional_to_json(string: &Option<String>) -> (value: Json)
    ensures
        value@ == optional_value(text::opt_text(*string)),
{
    match string {
        Some(text) => json::text(text.as_str()),
        None => Json::Null,
    }
}

/// The digest by which configurations are told apart: that of the text of the configuration as a
/// JSON object.
pub fn config_fingerprint(config: &FStarConfig) -> (digest: String)
    ensures
        digest@ == fingerprint_of(config@),
{
    let mut members: Vec<(String, Json)> = Vec::new();
    json::put(&mut members, "include_dirs", strings_to_json(&config.include_dirs));
    json::put(&mut members, "options", strings_to_json(&config.options));
    json::put(&mut members, "fstar_exe", optional_to_json(&config.fstar_exe));
    json::put(&mut members, "cwd", optional_to_json(&config.cwd));
    let value = json::object(members);
    assert(value@->Object_0 =~= config_value(config@)->Object_0);
    content_hash(json::to_text(value).as_str())
}

/// A list of strings becomes an array of the same strings, in their order.
pub proof fn law_strings_become_an_array(strings: Seq<Seq<char>>, at: int)
    ensures
        match strings_value(strings) {
            JsonView::Array(items) => items.len() == strings.len() && (0 <= at < strings.len()
                ==> items[at] == JsonView::Text(strings[at])),
            _ => false,
        },
{
}

/// A configuration becomes an object with each of its fields; one that is missing is null.
pub proof fn law_configurations_become_objects(config: FStarConfigView, named: Seq<char>)
    ensures
        ({
            let value = config_value(config);
            &&& json::member(value, "include_dirs"@) == Some(strings_value(config.include_dirs))
            &&& json::member(value, "options"@) == Some(strings_value(config.options))
            &&& config.fstar_exe == Some(named) ==> json::member(value, "fstar_exe"@) == Some(
                JsonView::Text(named),
            )
            &&& config.fstar_exe is None ==> json::member(value, "fstar_exe"@) == Some(
                JsonView::Null,
            )
            &&& config.cwd == Some(named) ==> json::member(value, "cwd"@) == Some(
                JsonView::Text(named),
            )
            &&& config.cwd is None ==> json::member(value, "cwd"@) == Some(JsonView::Null)
        }),
{
    reveal_strlit("include_dirs");
    reveal_strlit("options");
    reveal_strlit("fstar_exe");
    reveal_strlit("cwd");
    assert("include_dirs"@.len() == 12);
    assert("options"@.len() == 7);
    assert("fstar_exe"@.len() == 9);
    assert("cwd"@.len() == 3);
    let members = config_value(config)->Object_0;
    json::law_first_member_is_found(members, 0);
    json::law_first_member_is_found(members, 1);
    json::law_first_member_is_found(members, 2);
    json::law_first_member_is_found(members, 3);
}

/// Different configurations become different objects.
pub proof fn law_configurations_are_told_apart(a: FStarConfigView, b: FStarConfigView)
    requires
        config_value(a) == config_value(b),
    ensures
        a == b,
{
    let (x, y) = (config_value(a)->Object_0, config_value(b)->Object_0);
    assert(x[0].1 == y[0].1 && x[1].1 == y[1].1 && x[2].1 == y[2].1 && x[3].1 == y[3].1);
    lemma_same_strings(a.include_dirs, b.include_dirs);
    lemma_same_strings(a.options, b.options);
}

/// Different lists become different arrays.
proof fn lemma_same_strings(a: Seq<Seq<char>>, b: Seq<Seq<char>>)
    requires
        strings_value(a) == strings_value(b),
    ensures
        a == b,
{
    let (x, y) = (strings_value(a)->Array_0, strings_value(b)->Array_0);
    assert(x.len() == a.len() && y.len() == b.len());
    assert forall|i: int| 0 <= i < a.len() implies a[i] == b[i] by {
        assert(x[i] == JsonView::Text(a[i]));
        assert(y[i] == JsonView::Text(b[i]));
    }
    assert(a =~= b);
}

/// The fingerprint of a configuration is the digest of the text of its object, and the digest of a
/// text that of its UTF-8 bytes.
pub proof fn law_fingerprints_are_digests_of_the_object(config: FStarConfigView)
    ensures
        fingerprint_of(config) == sha256_text(
            vstd::utf8::encode_utf8(json::json_text(json::canonical(config_value(config)))),
        ),
{
}

} // verus!
