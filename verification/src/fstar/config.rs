//! F* configuration: how it is found, merged and resolved.
use crate::fstar::environment::{self, Environment};
use crate::fstar::error::{ConfigError, ConfigErrorView};
use crate::fstar::shell;
use crate::json::{self, Json, JsonView};
use crate::paths;
use crate::text;
use vstd::prelude::*;

verus! {

/// F* configuration. Every field has a default.
#[derive(Debug, PartialEq, Eq)]
pub struct FStarConfig {
    /// Directories for `--include`.
    pub include_dirs: Vec<String>,
    /// Options for the executable.
    pub options: Vec<String>,
    /// The executable; `fstar.exe` where there is none.
    pub fstar_exe: Option<String>,
    /// The working directory.
    pub cwd: Option<String>,
}

/// The model of a configuration.
#[verifier::ext_equal]
pub struct FStarConfigView {
    pub include_dirs: Seq<Seq<char>>,
    pub options: Seq<Seq<char>>,
    pub fstar_exe: Option<Seq<char>>,
    pub cwd: Option<Seq<char>>,
}

impl View for FStarConfig {
    type V = FStarConfigView;

    open spec fn view(&self) -> FStarConfigView {
        FStarConfigView {
            include_dirs: text::texts(self.include_dirs@),
            options: text::texts(self.options@),
            fstar_exe: text::opt_text(self.fstar_exe),
            cwd: text::opt_text(self.cwd),
        }
    }
}

/// The configuration with every field at its default.
pub open spec fn default_config() -> FStarConfigView {
    FStarConfigView {
        include_dirs: Seq::empty(),
        options: Seq::empty(),
        fstar_exe: None,
        cwd: None,
    }
}

/// The executable that a configuration names.
pub open spec fn executable_of(config: FStarConfigView) -> Seq<char> {
    match config.fstar_exe {
        Some(executable) => executable,
        None => "fstar.exe"@,
    }
}

/// The working directory that a configuration names, or `default`.
pub open spec fn directory_or(config: FStarConfigView, default: Seq<char>) -> Seq<char> {
    match config.cwd {
        Some(directory) => directory,
        None => default,
    }
}

/// The arguments for IDE mode: the file, the flags of a lax process, the options, and the
/// include directories.
pub open spec fn ide_arguments(
    config: FStarConfigView,
    file_path: Seq<char>,
    lax: bool,
) -> Seq<Seq<char>> {
    seq!["--ide"@, file_path] + (if lax {
        seq!["--admit_smt_queries"@, "true"@]
    } else {
        Seq::empty()
    }) + config.options + shell::include_pairs(config.include_dirs)
}

/// `config` with what `overrides` names in place of its own: fields that are set, and lists that
/// are not empty.
pub open spec fn overridden(config: FStarConfigView, overrides: FStarConfigView) -> FStarConfigView {
    FStarConfigView {
        include_dirs: if overrides.include_dirs.len() > 0 {
            overrides.include_dirs
        } else {
            config.include_dirs
        },
        options: if overrides.options.len() > 0 {
            overrides.options
        } else {
            config.options
        },
        fstar_exe: if overrides.fstar_exe is Some {
            overrides.fstar_exe
        } else {
            config.fstar_exe
        },
        cwd: if overrides.cwd is Some {
            overrides.cwd
        } else {
            config.cwd
        },
    }
}

/// Overrides that are applied twice change nothing the second time.
pub proof fn law_overrides_are_idempotent(config: FStarConfigView, overrides: FStarConfigView)
    ensures
        overridden(overridden(config, overrides), overrides) == overridden(config, overrides),
        overridden(config, default_config()) == config,
{
}

impl Default for FStarConfig {
    fn default() -> (config: Self)
        ensures
            config@ == default_config(),
    {
        let config = FStarConfig {
            include_dirs: Vec::new(),
            options: Vec::new(),
            fstar_exe: None,
            cwd: None,
        };
        assert(config@ =~= default_config());
        config
    }
}

/// Appends an `--include` pair for each directory.
fn push_pairs(arguments: &mut Vec<String>, directories: &Vec<String>)
    ensures
        text::texts(final(arguments)@) == text::texts(old(arguments)@) + shell::include_pairs(
            text::texts(directories@),
        ),
{
    let ghost before = text::texts(arguments@);
    let ghost all = text::texts(directories@);
    let mut index: usize = 0;
    assert(text::texts(arguments@) =~= before + shell::include_pairs(all.take(0)));
    while index < directories.len()
        invariant
            index <= directories@.len(),
            all == text::texts(directories@),
            text::texts(arguments@) == before + shell::include_pairs(all.take(index as int)),
        decreases directories@.len() - index,
    {
        let ghost prior = text::texts(arguments@);
        arguments.push("--include".to_owned());
        arguments.push(directories[index].clone());
        assert(text::texts(arguments@) =~= prior.push("--include"@).push(all[index as int]));
        assert(text::texts(arguments@) =~= before + shell::include_pairs(all.take(index + 1)));
        index += 1;
    }
    assert(all.take(index as int) =~= all);
}

/// Appends copies of `words`.
fn push_all(arguments: &mut Vec<String>, words: &Vec<String>)
    ensures
        text::texts(final(arguments)@) == text::texts(old(arguments)@) + text::texts(words@),
{
    let ghost before = text::texts(arguments@);
    let ghost all = text::texts(words@);
    let mut index: usize = 0;
    assert(text::texts(arguments@) =~= before + all.take(0));
    while index < words.len()
        invariant
            index <= words@.len(),
            all == text::texts(words@),
            text::texts(arguments@) == before + all.take(index as int),
        decreases words@.len() - index,
    {
        let ghost prior = text::texts(arguments@);
        arguments.push(words[index].clone());
        assert(text::texts(arguments@) =~= prior.push(all[index as int]));
        assert(text::texts(arguments@) =~= before + all.take(index + 1));
        index += 1;
    }
    assert(all.take(index as int) =~= all);
}

/// The arguments with which the executable lists the dependencies of a file.
pub open spec fn dependency_arguments(config: FStarConfigView, file_path: Seq<char>) -> Seq<
    Seq<char>,
> {
    (seq!["--dep"@, "full"@] + config.options + shell::include_pairs(config.include_dirs)).push(
        file_path,
    )
}

impl FStarConfig {
    /// A copy of the configuration.
    pub fn copy(&self) -> (copy: FStarConfig)
        ensures
            copy@ == self@,
    {
        FStarConfig {
            include_dirs: text::copy_list(&self.include_dirs),
            options: text::copy_list(&self.options),
            fstar_exe: text::copy_option(&self.fstar_exe),
            cwd: text::copy_option(&self.cwd),
        }
    }

    /// The executable, `fstar.exe` by default.
    pub fn fstar_exe(&self) -> (executable: &str)
        ensures
            executable@ == executable_of(self@),
    {
        match &self.fstar_exe {
            Some(executable) => executable.as_str(),
            None => "fstar.exe",
        }
    }

    /// The working directory, `default` where there is none.
    pub fn cwd_or(&self, default: &str) -> (directory: String)
        ensures
            directory@ == directory_or(self@, default@),
    {
        match &self.cwd {
            Some(directory) => directory.clone(),
            None => default.to_owned(),
        }
    }

    /// The command-line arguments for IDE mode.
    pub fn build_args(&self, file_path: &str, lax: bool) -> (arguments: Vec<String>)
        ensures
            text::texts(arguments@) == ide_arguments(self@, file_path@, lax),
    {
        let mut arguments: Vec<String> = Vec::new();
        arguments.push("--ide".to_owned());
        arguments.push(file_path.to_owned());
        let ghost mut expected = seq!["--ide"@, file_path@];
        assert(text::texts(arguments@) =~= expected);
        if lax {
            arguments.push("--admit_smt_queries".to_owned());
            arguments.push("true".to_owned());
            proof {
                expected = expected + seq!["--admit_smt_queries"@, "true"@];
            }
        } else {
            proof {
                expected = expected + Seq::empty();
            }
        }
        assert(text::texts(arguments@) =~= expected);
        push_all(&mut arguments, &self.options);
        push_pairs(&mut arguments, &self.include_dirs);
        arguments
    }

    /// The command-line arguments for a listing of dependencies.
    pub fn dependency_args(&self, file_path: &str) -> (arguments: Vec<String>)
        ensures
            text::texts(arguments@) == dependency_arguments(self@, file_path@),
    {
        let mut arguments: Vec<String> = Vec::new();
        arguments.push("--dep".to_owned());
        arguments.push("full".to_owned());
        assert(text::texts(arguments@) =~= seq!["--dep"@, "full"@]);
        push_all(&mut arguments, &self.options);
        push_pairs(&mut arguments, &self.include_dirs);
        let ghost before = text::texts(arguments@);
        arguments.push(file_path.to_owned());
        assert(text::texts(arguments@) =~= before.push(file_path@));
        arguments
    }

    /// Takes over what `overrides` names.
    pub fn apply_overrides(&mut self, overrides: &FStarConfig)
        ensures
            final(self)@ == overridden(old(self)@, overrides@),
    {
        if overrides.include_dirs.len() > 0 {
            self.include_dirs = text::copy_list(&overrides.include_dirs);
        }
        if overrides.options.len() > 0 {
            self.options = text::copy_list(&overrides.options);
        }
        if overrides.fstar_exe.is_some() {
            self.fstar_exe = text::copy_option(&overrides.fstar_exe);
        }
        if overrides.cwd.is_some() {
            self.cwd = text::copy_option(&overrides.cwd);
        }
    }
}

/// A string, or nothing for null.
pub open spec fn optional_string_in(value: JsonView) -> Option<Option<Seq<char>>> {
    match value {
        JsonView::Null => Some(None),
        JsonView::Text(string) => Some(Some(string)),
        _ => None,
    }
}

/// The fields of a configuration as a document gives them: by name, or in order in an array.
pub open spec fn config_field(value: JsonView, name: Seq<char>, place: int) -> Option<JsonView> {
    match value {
        JsonView::Array(items) => if place < items.len() {
            Some(items[place])
        } else {
            None
        },
        _ => json::member(value, name),
    }
}

/// A field that holds strings; none where it is missing.
pub open spec fn list_field(field: Option<JsonView>) -> Option<Seq<Seq<char>>> {
    match field {
        Some(value) => json::strings_in(value),
        None => Some(Seq::empty()),
    }
}

/// A field that holds a string or null; null where it is missing.
pub open spec fn string_field(field: Option<JsonView>) -> Option<Option<Seq<char>>> {
    match field {
        Some(value) => optional_string_in(value),
        None => Some(None),
    }
}

/// The configuration that a document holds: an object whose fields may be missing and may have
/// others beside them, or an array of at most the four fields in order.
pub open spec fn config_in(value: JsonView) -> Option<FStarConfigView> {
    let shaped = match value {
        JsonView::Object(_) => true,
        JsonView::Array(items) => items.len() <= 4,
        _ => false,
    };
    let include_dirs = list_field(config_field(value, "include_dirs"@, 0));
    let options = list_field(config_field(value, "options"@, 1));
    let fstar_exe = string_field(config_field(value, "fstar_exe"@, 2));
    let cwd = string_field(config_field(value, "cwd"@, 3));
    if shaped && include_dirs is Some && options is Some && fstar_exe is Some && cwd is Some {
        Some(
            FStarConfigView {
                include_dirs: include_dirs->0,
                options: options->0,
                fstar_exe: fstar_exe->0,
                cwd: cwd->0,
            },
        )
    } else {
        None
    }
}

/// The field of a document called `name`, or in its place in an array.
fn find_field<'a>(value: &'a Json, name: &str, place: usize) -> (found: Option<&'a Json>)
    ensures
        match found {
            Some(field) => config_field(value@, name@, place as int) == Some(field@),
            None => config_field(value@, name@, place as int) is None,
        },
{
    match value {
        Json::Array(items) => {
            assert(value@->Array_0 =~= json::items_view(items@));
            if place < items.len() {
                Some(&items[place])
            } else {
                None
            }
        },
        _ => value.get(name),
    }
}

/// Reads a field that holds strings.
fn read_list(field: Option<&Json>) -> (result: Option<Vec<String>>)
    ensures
        ({
            let value = match field {
                Some(f) => Some(f@),
                None => None,
            };
            match result {
                Some(list) => list_field(value) == Some(text::texts(list@)),
                None => list_field(value) is None,
            }
        }),
{
    match field {
        None => {
            let list: Vec<String> = Vec::new();
            assert(text::texts(list@) =~= Seq::empty());
            Some(list)
        },
        Some(value) => json::decode_strings(value),
    }
}

/// Reads a field that holds a string or null.
fn read_string(field: Option<&Json>) -> (result: Option<Option<String>>)
    ensures
        ({
            let value = match field {
                Some(f) => Some(f@),
                None => None,
            };
            match result {
                Some(string) => string_field(value) == Some(text::opt_text(string)),
                None => string_field(value) is None,
            }
        }),
{
    match field {
        None => Some(None),
        Some(value) => match value {
            Json::Null => Some(None),
            Json::Text(string) => Some(Some(string.clone())),
            _ => None,
        },
    }
}

/// What is wrong with a list of which an item is not a string: what the first such item is.
pub open spec fn items_fault(items: Seq<JsonView>) -> Option<Seq<char>>
    decreases items.len(),
{
    if items.len() == 0 {
        None
    } else if items[0] is Text {
        items_fault(items.skip(1))
    } else {
        Some(json::type_fault_text(json::canonical(items[0]), "a string"@))
    }
}

/// What is wrong with a field that has to hold strings.
pub open spec fn list_fault(value: JsonView) -> Option<Seq<char>> {
    match value {
        JsonView::Array(items) => items_fault(items),
        _ => Some(json::type_fault_text(json::canonical(value), "a sequence"@)),
    }
}

/// What is wrong with a field that has to hold a string or null.
pub open spec fn string_fault(value: JsonView) -> Option<Seq<char>> {
    match value {
        JsonView::Null => None,
        JsonView::Text(_) => None,
        _ => Some(json::type_fault_text(json::canonical(value), "a string"@)),
    }
}

/// What is wrong with the field of a configuration with a name; nothing with one of another name.
pub open spec fn field_fault(name: Seq<char>, value: JsonView) -> Option<Seq<char>> {
    if name == "include_dirs"@ || name == "options"@ {
        list_fault(value)
    } else if name == "fstar_exe"@ || name == "cwd"@ {
        string_fault(value)
    } else {
        None
    }
}

/// What is wrong with the first field of an object that is wrong.
pub open spec fn members_fault(members: Seq<(Seq<char>, JsonView)>) -> Option<Seq<char>>
    decreases members.len(),
{
    if members.len() == 0 {
        None
    } else {
        match field_fault(members[0].0, members[0].1) {
            Some(fault) => Some(fault),
            None => members_fault(members.skip(1)),
        }
    }
}

/// The names of the fields in the order in which an array holds them.
pub open spec fn field_name(place: int) -> Seq<char> {
    if place == 0 {
        "include_dirs"@
    } else if place == 1 {
        "options"@
    } else if place == 2 {
        "fstar_exe"@
    } else {
        "cwd"@
    }
}

/// What is wrong with the first field of an array from a place on that is wrong, or with the
/// number of the fields.
pub open spec fn places_fault(items: Seq<JsonView>, place: int) -> Option<Seq<char>>
    decreases 4 - place,
{
    if place >= 4 {
        if items.len() > 4 {
            Some(
                "invalid length "@ + text::decimal_of(items.len())
                    + ", expected fewer elements in array"@,
            )
        } else {
            None
        }
    } else if place >= items.len() {
        None
    } else {
        match field_fault(field_name(place), items[place]) {
            Some(fault) => Some(fault),
            None => places_fault(items, place + 1),
        }
    }
}

/// What is wrong with a document that holds no configuration: what the first wrong value is, and
/// what was expected in its place.
pub open spec fn config_fault(value: JsonView) -> Option<Seq<char>> {
    match value {
        JsonView::Object(members) => members_fault(members),
        JsonView::Array(items) => places_fault(items, 0),
        _ => Some(json::type_fault_text(json::canonical(value), "struct FStarConfig"@)),
    }
}

/// What is wrong with a field that has to hold strings.
fn find_list_fault(value: &Json) -> (fault: Option<String>)
    ensures
        text::opt_text(fault) == list_fault(value@),
{
    match value {
        Json::Array(items) => {
            let ghost all = json::items_view(items@);
            assert(value@->Array_0 =~= all);
            let mut index: usize = 0;
            assert(all.skip(0) =~= all);
            while index < items.len()
                invariant
                    index <= items@.len(),
                    all == json::items_view(items@),
                    list_fault(value@) == items_fault(all.skip(index as int)),
                decreases items@.len() - index,
            {
                assert(all.skip(index as int)[0] == items@[index as int]@);
                match &items[index] {
                    Json::Text(_) => {},
                    item => {
                        return Some(json::type_fault(item, "a string"));
                    },
                }
                assert(all.skip(index as int).skip(1) =~= all.skip(index + 1));
                index += 1;
            }
            None
        },
        _ => Some(json::type_fault(value, "a sequence")),
    }
}

/// What is wrong with the field of a configuration with a name.
fn find_field_fault(name: &str, value: &Json) -> (fault: Option<String>)
    ensures
        text::opt_text(fault) == field_fault(name@, value@),
{
    if text::same(name, "include_dirs") || text::same(name, "options") {
        find_list_fault(value)
    } else if text::same(name, "fstar_exe") || text::same(name, "cwd") {
        match value {
            Json::Null => None,
            Json::Text(_) => None,
            _ => Some(json::type_fault(value, "a string")),
        }
    } else {
        None
    }
}

/// What is wrong with a document that holds no configuration.
fn find_config_fault(value: &Json) -> (fault: Option<String>)
    ensures
        text::opt_text(fault) == config_fault(value@),
{
    match value {
        Json::Object(members) => {
            let ghost all = json::members_view(members@);
            assert(value@->Object_0 =~= all);
            let mut index: usize = 0;
            assert(all.skip(0) =~= all);
            while index < members.len()
                invariant
                    index <= members@.len(),
                    all == json::members_view(members@),
                    config_fault(value@) == members_fault(all.skip(index as int)),
                decreases members@.len() - index,
            {
                assert(all.skip(index as int)[0] == (
                    members@[index as int].0@,
                    members@[index as int].1@,
                ));
                let fault = find_field_fault(members[index].0.as_str(), &members[index].1);
                if fault.is_some() {
                    return fault;
                }
                assert(all.skip(index as int).skip(1) =~= all.skip(index + 1));
                index += 1;
            }
            None
        },
        Json::Array(items) => {
            let ghost all = json::items_view(items@);
            assert(value@->Array_0 =~= all);
            let mut place: usize = 0;
            while place < 4 && place < items.len()
                invariant
                    place <= 4,
                    place <= items@.len(),
                    all == json::items_view(items@),
                    config_fault(value@) == places_fault(all, place as int),
                decreases items@.len() - place,
            {
                let name = if place == 0 {
                    "include_dirs"
                } else if place == 1 {
                    "options"
                } else if place == 2 {
                    "fstar_exe"
                } else {
                    "cwd"
                };
                assert(all[place as int] == items@[place as int]@);
                let fault = find_field_fault(name, &items[place]);
                if fault.is_some() {
                    return fault;
                }
                place += 1;
            }
            if items.len() > 4 {
                Some(
                    "invalid length ".to_owned().concat(
                        text::decimal(items.len() as u64).as_str(),
                    ).concat(", expected fewer elements in array"),
                )
            } else {
                None
            }
        },
        _ => Some(json::type_fault(value, "struct FStarConfig")),
    }
}

/// A list is read exactly when nothing is wrong with it.
proof fn lemma_items_fault(items: Seq<JsonView>)
    ensures
        items_fault(items) is None <==> forall|i: int|
            0 <= i < items.len() ==> (#[trigger] items[i]) is Text,
    decreases items.len(),
{
    if items.len() > 0 {
        let rest = items.skip(1);
        lemma_items_fault(rest);
        if items_fault(items) is None {
            assert forall|i: int| 0 <= i < items.len() implies (#[trigger] items[i]) is Text by {
                if i > 0 {
                    assert(rest[i - 1] == items[i]);
                }
            }
        }
        if forall|i: int| 0 <= i < items.len() ==> (#[trigger] items[i]) is Text {
            assert forall|i: int| 0 <= i < rest.len() implies (#[trigger] rest[i]) is Text by {
                assert(rest[i] == items[i + 1]);
            }
        }
    }
}

/// Where nothing is wrong with the members of an object, nothing is wrong with its first member of
/// a name.
proof fn lemma_members_fault(members: Seq<(Seq<char>, JsonView)>, name: Seq<char>)
    requires
        members_fault(members) is None,
        json::member_in(members, name) is Some,
    ensures
        field_fault(name, json::member_in(members, name)->0) is None,
    decreases members.len(),
{
    if members[0].0 != name {
        lemma_members_fault(members.skip(1), name);
    }
}

/// A document in which nothing is wrong holds a configuration.
proof fn lemma_config_fault(value: JsonView)
    requires
        config_fault(value) is None,
    ensures
        config_in(value) is Some,
{
    match value {
        JsonView::Object(members) => {
            assert forall|name: Seq<char>| #[trigger] json::member_in(members, name) is Some implies
                field_fault(name, json::member_in(members, name)->0) is None by {
                lemma_members_fault(members, name);
            }
            assert forall|list: Seq<JsonView>| #[trigger] items_fault(list) is None implies
                json::strings_in(JsonView::Array(list)) is Some by {
                lemma_items_fault(list);
            }
            lemma_field_names();
            assert(json::member_in(members, "include_dirs"@) is Some || json::member_in(
                members,
                "include_dirs"@,
            ) is None);
            assert(json::member_in(members, "options"@) is Some || json::member_in(
                members,
                "options"@,
            ) is None);
            assert(json::member_in(members, "fstar_exe"@) is Some || json::member_in(
                members,
                "fstar_exe"@,
            ) is None);
            assert(json::member_in(members, "cwd"@) is Some || json::member_in(
                members,
                "cwd"@,
            ) is None);
        },
        JsonView::Array(items) => {
            reveal_with_fuel(places_fault, 5);
            assert forall|list: Seq<JsonView>| #[trigger] items_fault(list) is None implies
                json::strings_in(JsonView::Array(list)) is Some by {
                lemma_items_fault(list);
            }
            lemma_field_names();
        },
        _ => {},
    }
}

/// The names of the fields are different.
proof fn lemma_field_names()
    ensures
        "include_dirs"@ != "fstar_exe"@,
        "include_dirs"@ != "cwd"@,
        "options"@ != "fstar_exe"@,
        "options"@ != "cwd"@,
        "include_dirs"@ != "options"@,
        "fstar_exe"@ != "cwd"@,
{
    reveal_strlit("include_dirs");
    reveal_strlit("options");
    reveal_strlit("fstar_exe");
    reveal_strlit("cwd");
    assert("include_dirs"@.len() == 12 && "options"@.len() == 7 && "fstar_exe"@.len() == 9
        && "cwd"@.len() == 3);
}

/// Reads a configuration from a document, or says what the first wrong value is.
pub fn decode_config(value: &Json) -> (result: Result<FStarConfig, String>)
    ensures
        match result {
            Ok(config) => config_in(value@) == Some(config@),
            Err(fault) => config_in(value@) is None && config_fault(value@) == Some(fault@),
        },
{
    let shaped = match value {
        Json::Object(_) => true,
        Json::Array(items) => {
            assert(value@->Array_0 =~= json::items_view(items@));
            items.len() <= 4
        },
        _ => false,
    };
    let include_dirs = read_list(find_field(value, "include_dirs", 0));
    let options = read_list(find_field(value, "options", 1));
    let fstar_exe = read_string(find_field(value, "fstar_exe", 2));
    let cwd = read_string(find_field(value, "cwd", 3));
    match (shaped, include_dirs, options, fstar_exe, cwd) {
        (true, Some(include_dirs), Some(options), Some(fstar_exe), Some(cwd)) => {
            Ok(FStarConfig { include_dirs, options, fstar_exe, cwd })
        },
        _ => {
            assert(config_in(value@) is None);
            proof {
                if config_fault(value@) is None {
                    lemma_config_fault(value@);
                }
            }
            match find_config_fault(value) {
                Some(fault) => Err(fault),
                None => Err(String::new()),
            }
        },
    }
}

/// Overrides replace what they name and leave all else; an empty list names nothing.
pub proof fn law_overrides_replace_what_they_name(
    config: FStarConfigView,
    overrides: FStarConfigView,
)
    ensures
        ({
            let result = overridden(config, overrides);
            &&& overrides.options.len() > 0 ==> result.options == overrides.options
            &&& overrides.options.len() == 0 ==> result.options == config.options
            &&& overrides.include_dirs.len() > 0 ==> result.include_dirs == overrides.include_dirs
            &&& overrides.include_dirs.len() == 0 ==> result.include_dirs == config.include_dirs
            &&& overrides.fstar_exe is Some ==> result.fstar_exe == overrides.fstar_exe
            &&& overrides.fstar_exe is None ==> result.fstar_exe == config.fstar_exe
            &&& overrides.cwd is Some ==> result.cwd == overrides.cwd
            &&& overrides.cwd is None ==> result.cwd == config.cwd
        }),
{
}

/// What a configuration does not name has its default.
pub proof fn law_defaults_stand_for_what_is_missing(
    config: FStarConfigView,
    default: Seq<char>,
    named: Seq<char>,
)
    ensures
        config.fstar_exe == Some(named) ==> executable_of(config) == named,
        config.fstar_exe is None ==> executable_of(config) == "fstar.exe"@,
        config.cwd == Some(named) ==> directory_or(config, default) == named,
        config.cwd is None ==> directory_or(config, default) == default,
        default_config().options.len() == 0,
        default_config().include_dirs.len() == 0,
        default_config().fstar_exe is None,
        default_config().cwd is None,
{
}

/// F* is started in IDE mode for the file, with its queries admitted exactly where the process is
/// lax, with all options in their order, and with each include directory behind `--include`.
pub proof fn law_all_options_are_passed(
    config: FStarConfigView,
    file_path: Seq<char>,
    lax: bool,
    option: int,
    directory: int,
)
    ensures
        ({
            let arguments = ide_arguments(config, file_path, lax);
            let flags = if lax {
                4int
            } else {
                2int
            };
            let count = config.options.len() as int;
            &&& arguments.len() == flags + count + 2 * config.include_dirs.len()
            &&& arguments[0] == "--ide"@
            &&& arguments[1] == file_path
            &&& lax ==> arguments[2] == "--admit_smt_queries"@ && arguments[3] == "true"@
            &&& 0 <= option < count ==> arguments[flags + option] == config.options[option]
            &&& 0 <= directory < config.include_dirs.len() ==> arguments[flags + count + 2
                * directory] == "--include"@ && arguments[flags + count + 2 * directory + 1]
                == config.include_dirs[directory]
        }),
{
    let flags = if lax {
        4int
    } else {
        2int
    };
    if 0 <= directory < config.include_dirs.len() {
        let pairs = shell::include_pairs(config.include_dirs);
        assert(pairs[2 * directory] == "--include"@);
        assert((2 * directory + 1) % 2 == 1 && (2 * directory + 1) / 2 == directory);
        assert(pairs[2 * directory + 1] == config.include_dirs[directory]);
        let arguments = ide_arguments(config, file_path, lax);
        let at = flags + config.options.len() + 2 * directory;
        assert(arguments[at] == pairs[2 * directory]);
        assert(arguments[at + 1] == pairs[2 * directory + 1]);
    }
}

/// F* lists the dependencies of the file with all options in their order, and with each include
/// directory behind `--include`.
pub proof fn law_dependencies_are_asked_for_with_all_options(
    config: FStarConfigView,
    file_path: Seq<char>,
    option: int,
    directory: int,
)
    ensures
        ({
            let arguments = dependency_arguments(config, file_path);
            let count = config.options.len() as int;
            &&& arguments.len() == 3 + count + 2 * config.include_dirs.len()
            &&& arguments[0] == "--dep"@
            &&& arguments[1] == "full"@
            &&& arguments.last() == file_path
            &&& 0 <= option < count ==> arguments[2 + option] == config.options[option]
            &&& 0 <= directory < config.include_dirs.len() ==> arguments[2 + count + 2 * directory]
                == "--include"@ && arguments[3 + count + 2 * directory]
                == config.include_dirs[directory]
        }),
{
    if 0 <= directory < config.include_dirs.len() {
        let pairs = shell::include_pairs(config.include_dirs);
        assert(pairs[2 * directory] == "--include"@);
        assert((2 * directory + 1) % 2 == 1 && (2 * directory + 1) / 2 == directory);
        assert(pairs[2 * directory + 1] == config.include_dirs[directory]);
        let arguments = dependency_arguments(config, file_path);
        let at = 2 + config.options.len() + 2 * directory;
        assert(arguments[at] == pairs[2 * directory]);
        assert(arguments[at + 1] == pairs[2 * directory + 1]);
    }
}

/// A configuration is read from an object by the names of its fields: lists of strings, and strings
/// or null. A field that is missing has its default, and one of another type makes it none.
pub proof fn law_configurations_are_read_by_name(
    members: Seq<(Seq<char>, JsonView)>,
    include_dirs: Seq<Seq<char>>,
    options: Seq<Seq<char>>,
    fstar_exe: Seq<char>,
    cwd: Seq<char>,
)
    ensures
        ({
            let value = JsonView::Object(members);
            let list = |strings: Seq<Seq<char>>|
                JsonView::Array(Seq::new(strings.len(), |i: int| JsonView::Text(strings[i])));
            let has_dirs = json::member(value, "include_dirs"@) == Some(list(include_dirs));
            let has_options = json::member(value, "options"@) == Some(list(options));
            let has_executable = json::member(value, "fstar_exe"@) == Some(
                JsonView::Text(fstar_exe),
            );
            let has_directory = json::member(value, "cwd"@) == Some(JsonView::Text(cwd));
            let no_executable = json::member(value, "fstar_exe"@) is None || json::member(
                value,
                "fstar_exe"@,
            ) == Some(JsonView::Null);
            let no_directory = json::member(value, "cwd"@) is None || json::member(value, "cwd"@)
                == Some(JsonView::Null);
            &&& (has_dirs || json::member(value, "include_dirs"@) is None) && (has_options
                || json::member(value, "options"@) is None) && (has_executable || no_executable)
                && (has_directory || no_directory) ==> match config_in(value) {
                Some(config) => {
                    &&& has_dirs ==> config.include_dirs == include_dirs
                    &&& !has_dirs ==> config.include_dirs.len() == 0
                    &&& has_options ==> config.options == options
                    &&& !has_options ==> config.options.len() == 0
                    &&& has_executable ==> config.fstar_exe == Some(fstar_exe)
                    &&& !has_executable ==> config.fstar_exe is None
                    &&& has_directory ==> config.cwd == Some(cwd)
                    &&& !has_directory ==> config.cwd is None
                },
                None => false,
            }
            &&& json::member(value, "fstar_exe"@) matches Some(JsonView::Integer(_))
                ==> config_in(value) is None
            &&& json::member(value, "cwd"@) matches Some(JsonView::Integer(_)) ==> config_in(value)
                is None
            &&& json::member(value, "options"@) matches Some(JsonView::Text(_)) ==> config_in(value)
                is None
            &&& json::member(value, "include_dirs"@) matches Some(JsonView::Text(_))
                ==> config_in(value) is None
        }),
{
    json::law_lists_of_strings_are_read(include_dirs, Seq::empty(), 0);
    json::law_lists_of_strings_are_read(options, Seq::empty(), 0);
}

/// A configuration is read from an array by the places of its fields, of which there are at most
/// four; what is neither an object nor an array holds none.
pub proof fn law_configurations_are_read_by_place(
    include_dirs: Seq<Seq<char>>,
    options: Seq<Seq<char>>,
    fstar_exe: Seq<char>,
    cwd: Seq<char>,
    items: Seq<JsonView>,
    string: Seq<char>,
)
    ensures
        ({
            let list = |strings: Seq<Seq<char>>|
                JsonView::Array(Seq::new(strings.len(), |i: int| JsonView::Text(strings[i])));
            config_in(
                JsonView::Array(
                    seq![
                        list(include_dirs),
                        list(options),
                        JsonView::Text(fstar_exe),
                        JsonView::Text(cwd),
                    ],
                ),
            ) == Some(
                FStarConfigView {
                    include_dirs,
                    options,
                    fstar_exe: Some(fstar_exe),
                    cwd: Some(cwd),
                },
            )
        }),
        items.len() > 4 ==> config_in(JsonView::Array(items)) is None,
        config_in(JsonView::Text(string)) is None,
        config_in(JsonView::Null) is None,
{
    json::law_lists_of_strings_are_read(include_dirs, Seq::empty(), 0);
    json::law_lists_of_strings_are_read(options, Seq::empty(), 0);
}

/// True for a field of a configuration that holds what it has to: strings for the directories and the
/// options, a string or null for the executable and the working directory. A field of another name
/// may hold anything.
pub open spec fn is_right_field(name: Seq<char>, value: JsonView) -> bool {
    &&& name == "include_dirs"@ || name == "options"@ ==> match value {
        JsonView::Array(items) => forall|i: int|
            0 <= i < items.len() ==> (#[trigger] items[i]) is Text,
        _ => false,
    }
    &&& name == "fstar_exe"@ || name == "cwd"@ ==> value is Null || value is Text
}

/// The first item of a list that is no string is its fault.
proof fn lemma_first_items_fault(items: Seq<JsonView>, at: int)
    requires
        0 <= at < items.len(),
        !(items[at] is Text),
        forall|i: int| 0 <= i < at ==> (#[trigger] items[i]) is Text,
    ensures
        items_fault(items) == Some(
            json::type_fault_text(json::canonical(items[at]), "a string"@),
        ),
    decreases at,
{
    if at > 0 {
        assert(items[0] is Text);
        let rest = items.skip(1);
        assert forall|i: int| 0 <= i < rest.len() implies #[trigger] rest[i] == items[i + 1] by {}
        lemma_first_items_fault(rest, at - 1);
    }
}

/// A field has a fault exactly when it does not hold what it has to, and the fault says what was
/// expected: a sequence or a string in place of the value, or a string in place of the first item
/// that is none.
pub proof fn law_wrong_fields_tell_what_was_expected(name: Seq<char>, value: JsonView, at: int)
    ensures
        field_fault(name, value) is None <==> is_right_field(name, value),
        (name == "fstar_exe"@ || name == "cwd"@) && !is_right_field(name, value) ==> field_fault(
            name,
            value,
        ) == Some(json::type_fault_text(json::canonical(value), "a string"@)),
        (name == "include_dirs"@ || name == "options"@) && !(value is Array) ==> field_fault(
            name,
            value,
        ) == Some(json::type_fault_text(json::canonical(value), "a sequence"@)),
        (name == "include_dirs"@ || name == "options"@) && (match value {
            JsonView::Array(items) => 0 <= at < items.len() && !(items[at] is Text) && forall|
                i: int,
            |
                0 <= i < at ==> (#[trigger] items[i]) is Text,
            _ => false,
        }) ==> field_fault(name, value) == Some(
            json::type_fault_text(json::canonical(value->Array_0[at]), "a string"@),
        ),
{
    reveal_strlit("include_dirs");
    reveal_strlit("options");
    reveal_strlit("fstar_exe");
    reveal_strlit("cwd");
    assert("include_dirs"@.len() == 12);
    assert("options"@.len() == 7);
    assert("fstar_exe"@.len() == 9);
    assert("cwd"@.len() == 3);
    if let JsonView::Array(items) = value {
        lemma_items_fault(items);
        if 0 <= at < items.len() && !(items[at] is Text) && forall|i: int|
            0 <= i < at ==> (#[trigger] items[i]) is Text {
            lemma_first_items_fault(items, at);
        }
    }
}

/// An object has no fault where each of its fields holds what it has to; otherwise the first field
/// that does not is its fault.
pub proof fn law_the_first_wrong_field_is_told(members: Seq<(Seq<char>, JsonView)>, at: int)
    ensures
        (forall|i: int|
            0 <= i < members.len() ==> is_right_field(
                (#[trigger] members[i]).0,
                members[i].1,
            )) ==> config_fault(JsonView::Object(members)) is None,
        0 <= at < members.len() && !is_right_field(members[at].0, members[at].1) && (forall|i: int|
            0 <= i < at ==> is_right_field((#[trigger] members[i]).0, members[i].1))
            ==> config_fault(JsonView::Object(members)) == field_fault(
            members[at].0,
            members[at].1,
        ) && config_fault(JsonView::Object(members)) is Some,
    decreases members.len(),
{
    if members.len() > 0 {
        law_wrong_fields_tell_what_was_expected(members[0].0, members[0].1, 0);
        let rest = members.skip(1);
        assert forall|i: int| 0 <= i < rest.len() implies #[trigger] rest[i] == members[i + 1] by {}
        law_the_first_wrong_field_is_told(rest, at - 1);
    }
}

/// An array holds the directories, the options, the executable and the working directory, in this
/// order: the first of them that does not hold what it has to is its fault, and then that there are
/// more of them. Anything but an object or an array is a fault.
pub proof fn law_the_first_wrong_place_is_told(items: Seq<JsonView>, at: int, other: JsonView)
    ensures
        ({
            let names = seq!["include_dirs"@, "options"@, "fstar_exe"@, "cwd"@];
            let fault = config_fault(JsonView::Array(items));
            &&& items.len() <= 4 && (forall|i: int|
                0 <= i < items.len() ==> is_right_field(names[i], #[trigger] items[i])) ==> fault
                is None
            &&& items.len() > 4 && (forall|i: int|
                0 <= i < 4 ==> is_right_field(names[i], #[trigger] items[i])) ==> fault == Some(
                "invalid length "@ + text::decimal_of(items.len())
                    + ", expected fewer elements in array"@,
            )
            &&& 0 <= at < items.len() && at < 4 && !is_right_field(names[at], items[at]) && (forall|
                i: int,
            |
                0 <= i < at ==> is_right_field(names[i], #[trigger] items[i])) ==> fault
                == field_fault(names[at], items[at]) && fault is Some
        }),
        !(other is Object) && !(other is Array) ==> config_fault(other) == Some(
            json::type_fault_text(json::canonical(other), "struct FStarConfig"@),
        ),
{
    reveal_with_fuel(places_fault, 5);
    let names = seq!["include_dirs"@, "options"@, "fstar_exe"@, "cwd"@];
    assert forall|i: int| 0 <= i < 4 implies #[trigger] names[i] == field_name(i) by {}
    assert forall|i: int| 0 <= i < 4 implies (field_fault(names[i], #[trigger] items[i]) is None
        <==> is_right_field(names[i], items[i])) by {
        law_wrong_fields_tell_what_was_expected(names[i], items[i], 0);
    }
    assert(names[0] == field_name(0) && names[1] == field_name(1) && names[2] == field_name(2)
        && names[3] == field_name(3));
    assert(items[0] == items[0] && items[1] == items[1] && items[2] == items[2] && items[3]
        == items[3]);
}

} // verus!
