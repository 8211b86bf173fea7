//! Environment variables in configuration values.
use crate::fstar::error::{ConfigError, ConfigErrorView};
use crate::json::{self, Json, JsonView};
use crate::locations::Style;
use crate::text;
use vstd::prelude::*;

verus! {

/// The variables of an environment. A variable whose value is not valid Unicode has none.
pub struct Environment {
    /// The kind of system: on Windows the case of letters in a variable's name does not count.
    pub style: Style,
    pub variables: Vec<(String, Option<String>)>,
}

/// What an environment says of a variable.
pub enum VariableView {
    Missing,
    Invalid,
    Value(Seq<char>),
}

/// True when both names are those of one variable.
pub open spec fn is_same_name(style: Style, a: Seq<char>, b: Seq<char>) -> bool {
    match style {
        Style::Unix => a == b,
        Style::Windows => a.len() == b.len() && forall|i: int|
            0 <= i < a.len() ==> text::upper(#[trigger] a[i]) == text::upper(b[i]),
    }
}

/// The value of the first variable called `name`.
pub open spec fn variable_in(
    style: Style,
    variables: Seq<(String, Option<String>)>,
    name: Seq<char>,
) -> VariableView
    decreases variables.len(),
{
    if variables.len() == 0 {
        VariableView::Missing
    } else if is_same_name(style, variables[0].0@, name) {
        match variables[0].1 {
            Some(value) => VariableView::Value(value@),
            None => VariableView::Invalid,
        }
    } else {
        variable_in(style, variables.skip(1), name)
    }
}

/// What an environment says of the variable called `name`.
pub open spec fn variable_of(environment: Environment, name: Seq<char>) -> VariableView {
    variable_in(environment.style, environment.variables@, name)
}

/// A variable that a text refers to and that has no value.
pub enum EnvFault {
    Missing(Seq<char>),
    Invalid(Seq<char>),
}

/// The error for a fault that `config_file` has.
pub open spec fn fault_error(fault: EnvFault, config_file: Seq<char>) -> ConfigErrorView {
    match fault {
        EnvFault::Missing(variable) => ConfigErrorView::MissingEnvironmentVariable {
            variable,
            config_file,
        },
        EnvFault::Invalid(variable) => ConfigErrorView::InvalidEnvironmentVariable {
            variable,
            config_file,
        },
    }
}

/// The characters that a variable's name can start with.
pub open spec fn starts_name(ch: char) -> bool {
    ch == '_' || 'a' <= ch <= 'z' || 'A' <= ch <= 'Z'
}

/// The characters that a variable's name can go on with.
pub open spec fn continues_name(ch: char) -> bool {
    starts_name(ch) || '0' <= ch <= '9'
}

/// True for the name of a variable.
pub open spec fn is_name(name: Seq<char>) -> bool {
    &&& name.len() > 0
    &&& starts_name(name[0])
    &&& forall|i: int| 0 <= i < name.len() ==> continues_name(#[trigger] name[i])
}

/// How many characters at the start of `chars` a name can go on with.
pub open spec fn name_run(chars: Seq<char>) -> nat
    decreases chars.len(),
{
    if chars.len() > 0 && continues_name(chars[0]) {
        1 + name_run(chars.skip(1))
    } else {
        0
    }
}

/// The variable that a text starting with `$` refers to, and how many characters that takes:
/// `${NAME}` up to the first closing brace, or `$NAME` with the longest name there is.
pub open spec fn reference_at(input: Seq<char>) -> Option<(Seq<char>, int)> {
    if input.len() > 1 && input[1] == '{' {
        let length = text::position_of(input.skip(2), '}') as int;
        let name = input.skip(2).take(length);
        if length < input.len() - 2 && is_name(name) {
            Some((name, length + 3))
        } else {
            None
        }
    } else if input.len() > 1 && starts_name(input[1]) {
        let length = name_run(input.skip(1)) as int;
        Some((input.skip(1).take(length), length + 1))
    } else {
        None
    }
}

/// `prefix` in front of a text, where there is one.
pub open spec fn text_then(
    prefix: Seq<char>,
    rest: Result<Seq<char>, EnvFault>,
) -> Result<Seq<char>, EnvFault> {
    match rest {
        Ok(more) => Ok(prefix + more),
        Err(fault) => Err(fault),
    }
}

/// `input` with each reference replaced by the variable's value. A `$` that is no reference
/// stands for itself, and the first variable without a value is the fault.
pub open spec fn expanded(
    input: Seq<char>,
    environment: Environment,
) -> Result<Seq<char>, EnvFault>
    decreases input.len(),
{
    if input.len() == 0 {
        Ok(Seq::empty())
    } else if input[0] == '$' && reference_at(input) is Some {
        let (name, length) = reference_at(input)->0;
        match variable_of(environment, name) {
            VariableView::Value(value) => {
                proof {
                    lemma_reference_at(input);
                }
                text_then(value, expanded(input.skip(length), environment))
            },
            VariableView::Missing => Err(EnvFault::Missing(name)),
            VariableView::Invalid => Err(EnvFault::Invalid(name)),
        }
    } else {
        text_then(seq![input[0]], expanded(input.skip(1), environment))
    }
}

/// `value` with the references in each of its strings replaced.
pub open spec fn expanded_json(
    value: JsonView,
    environment: Environment,
) -> Result<JsonView, EnvFault>
    decreases value,
{
    match value {
        JsonView::Text(string) => match expanded(string, environment) {
            Ok(result) => Ok(JsonView::Text(result)),
            Err(fault) => Err(fault),
        },
        JsonView::Array(items) => match expanded_items(items, environment) {
            Ok(result) => Ok(JsonView::Array(result)),
            Err(fault) => Err(fault),
        },
        JsonView::Object(members) => match expanded_members(members, environment) {
            Ok(result) => Ok(JsonView::Object(result)),
            Err(fault) => Err(fault),
        },
        _ => Ok(value),
    }
}

/// The items with the references in them replaced; the fault of the first item that has one.
pub open spec fn expanded_items(
    items: Seq<JsonView>,
    environment: Environment,
) -> Result<Seq<JsonView>, EnvFault>
    decreases items,
{
    if items.len() == 0 {
        Ok(Seq::empty())
    } else {
        match expanded_items(items.drop_last(), environment) {
            Ok(front) => match expanded_json(items.last(), environment) {
                Ok(last) => Ok(front.push(last)),
                Err(fault) => Err(fault),
            },
            Err(fault) => Err(fault),
        }
    }
}

/// The members with the references in their values replaced; the fault of the first member that
/// has one.
pub open spec fn expanded_members(
    members: Seq<(Seq<char>, JsonView)>,
    environment: Environment,
) -> Result<Seq<(Seq<char>, JsonView)>, EnvFault>
    decreases members,
{
    if members.len() == 0 {
        Ok(Seq::empty())
    } else {
        match expanded_members(members.drop_last(), environment) {
            Ok(front) => match expanded_json(members.last().1, environment) {
                Ok(last) => Ok(front.push((members.last().0, last))),
                Err(fault) => Err(fault),
            },
            Err(fault) => Err(fault),
        }
    }
}

/// A run of name characters is not longer than the text.
pub proof fn lemma_name_run(chars: Seq<char>)
    ensures
        name_run(chars) <= chars.len(),
        chars.len() > 0 && continues_name(chars[0]) ==> name_run(chars) > 0,
    decreases chars.len(),
{
    if chars.len() > 0 && continues_name(chars[0]) {
        lemma_name_run(chars.skip(1));
    }
}

/// A reference takes at least two characters, and no more than there are.
pub proof fn lemma_reference_at(input: Seq<char>)
    ensures
        reference_at(input) matches Some((name, length)) ==> 1 < length <= input.len(),
{
    if input.len() > 1 {
        text::lemma_position_of(input.skip(2), '}');
        lemma_name_run(input.skip(1));
    }
}

/// A text without `$` is left as it is.
pub proof fn law_text_without_references_is_kept(
    input: Seq<char>,
    environment: Environment,
)
    requires
        !input.contains('$'),
    ensures
        expanded(input, environment) == Ok::<Seq<char>, EnvFault>(input),
    decreases input.len(),
{
    if input.len() == 0 {
        assert(input =~= Seq::empty());
    } else {
        assert(input.contains(input[0]));
        assert(!input.skip(1).contains('$')) by {
            if input.skip(1).contains('$') {
                let i = choose|i: int| 0 <= i < input.len() - 1 && input.skip(1)[i] == '$';
                assert(input[i + 1] == '$');
            }
        }
        law_text_without_references_is_kept(input.skip(1), environment);
        assert(seq![input[0]] + input.skip(1) =~= input);
    }
}

/// A reference in braces is replaced by the variable's value, whatever stands behind it.
pub proof fn law_braced_reference_is_replaced(
    name: Seq<char>,
    value: Seq<char>,
    tail: Seq<char>,
    environment: Environment,
)
    requires
        is_name(name),
        variable_of(environment, name) == VariableView::Value(value),
    ensures
        match expanded(tail, environment) {
            Ok(rest) => expanded(seq!['$', '{'] + name + seq!['}'] + tail, environment) == Ok::<
                Seq<char>,
                EnvFault,
            >(value + rest),
            Err(fault) => expanded(seq!['$', '{'] + name + seq!['}'] + tail, environment) == Err::<
                Seq<char>,
                EnvFault,
            >(fault),
        },
{
    let input = seq!['$', '{'] + name + seq!['}'] + tail;
    let rest = input.skip(2);
    assert forall|i: int| 0 <= i < name.len() implies rest[i] != '}' by {
        assert(rest[i] == name[i]);
        assert(continues_name(name[i]));
    }
    text::lemma_position_is(rest, '}', name.len() as int);
    assert(rest.take(name.len() as int) =~= name);
    assert(input.skip(name.len() as int + 3) =~= tail);
}

/// True for a character that a variable's name can start with.
pub fn is_env_name_start(ch: char) -> (result: bool)
    ensures
        result == starts_name(ch),
{
    ch == '_' || ('a' <= ch && ch <= 'z') || ('A' <= ch && ch <= 'Z')
}

/// True for a character that a variable's name can go on with.
pub fn is_env_name_continue(ch: char) -> (result: bool)
    ensures
        result == continues_name(ch),
{
    is_env_name_start(ch) || ('0' <= ch && ch <= '9')
}

/// True for the name of a variable.
pub fn is_env_name(name: &str) -> (result: bool)
    ensures
        result == is_name(name@),
{
    let chars = text::chars_of(name);
    if chars.len() == 0 || !is_env_name_start(chars[0]) {
        return false;
    }
    let mut index: usize = 0;
    while index < chars.len()
        invariant
            index <= chars@.len(),
            chars@ == name@,
            forall|i: int| 0 <= i < index ==> continues_name(#[trigger] chars@[i]),
        decreases chars@.len() - index,
    {
        if !is_env_name_continue(chars[index]) {
            return false;
        }
        index += 1;
    }
    true
}

/// True when both names are those of one variable.
fn same_name(style: Style, left: &str, right: &str) -> (same: bool)
    ensures
        same == is_same_name(style, left@, right@),
{
    match style {
        Style::Unix => text::same(left, right),
        Style::Windows => {
            let a = text::chars_of(left);
            let b = text::chars_of(right);
            if a.len() != b.len() {
                return false;
            }
            let mut index: usize = 0;
            while index < a.len()
                invariant
                    index <= a@.len() == b@.len(),
                    a@ == left@,
                    b@ == right@,
                    style is Windows,
                    forall|i: int| 0 <= i < index ==> text::upper(#[trigger] a@[i]) == text::upper(b@[i]),
                decreases a@.len() - index,
            {
                if text::to_upper(a[index]) != text::to_upper(b[index]) {
                    return false;
                }
                index += 1;
            }
            true
        },
    }
}

impl Environment {
    /// The value of the variable called `name`: none where it is not set, and `Some(None)` where
    /// its value is not valid Unicode.
    pub fn lookup(&self, name: &str) -> (found: Option<Option<String>>)
        ensures
            match found {
                None => variable_of(*self, name@) is Missing,
                Some(None) => variable_of(*self, name@) is Invalid,
                Some(Some(value)) => variable_of(*self, name@) == VariableView::Value(
                    value@,
                ),
            },
    {
        let ghost all = self.variables@;
        let mut index: usize = 0;
        assert(all.skip(0) =~= all);
        while index < self.variables.len()
            invariant
                index <= all.len(),
                all == self.variables@,
                variable_of(*self, name@) == variable_in(self.style, all.skip(index as int), name@),
            decreases all.len() - index,
        {
            if same_name(self.style, self.variables[index].0.as_str(), name) {
                return Some(text::copy_option(&self.variables[index].1));
            }
            assert(all.skip(index as int).skip(1) =~= all.skip(index + 1));
            index += 1;
        }
        None
    }
}

/// The variable that the characters from `index`, a `$`, refer to, and where the reference ends.
fn find_reference(chars: &Vec<char>, index: usize) -> (found: Option<(String, usize)>)
    requires
        index < chars@.len(),
    ensures
        match found {
            Some((name, end)) => index < end <= chars@.len() && reference_at(
                chars@.skip(index as int),
            ) == Some((name@, end - index)),
            None => reference_at(chars@.skip(index as int)) is None,
        },
{
    let ghost input = chars@.skip(index as int);
    let length: usize = chars.len();
    let start: usize = index + 1;
    if start >= length {
        return None;
    }
    if chars[start] == '{' {
        let name_start: usize = start + 1;
        let name_end = text::find_char(chars, name_start, '}');
        assert(input.skip(2) =~= chars@.skip(name_start as int));
        if name_end >= chars.len() {
            return None;
        }
        let name = text::substring(chars, name_start, name_end);
        assert(input.skip(2).take(name_end - name_start) =~= name@);
        if !is_env_name(name.as_str()) {
            return None;
        }
        return Some((name, name_end + 1));
    }
    if !is_env_name_start(chars[start]) {
        return None;
    }
    let mut end: usize = start;
    assert(input.skip(1) =~= chars@.skip(start as int));
    while end < chars.len() && is_env_name_continue(chars[end])
        invariant
            start <= end <= chars@.len(),
            name_run(chars@.skip(start as int)) == end - start + name_run(
                chars@.skip(end as int),
            ),
        decreases chars@.len() - end,
    {
        assert(chars@.skip(end as int).skip(1) =~= chars@.skip(end + 1));
        end += 1;
    }
    let name = text::substring(chars, start, end);
    assert(input.skip(1).take(end - start) =~= name@);
    Some((name, end))
}

/// Replaces the references in `input` by the values of the variables.
pub fn substitute_env_vars(
    input: &str,
    config_file: &str,
    environment: &Environment,
) -> (result: Result<String, ConfigError>)
    ensures
        match result {
            Ok(output) => expanded(input@, *environment) == Ok::<Seq<char>, EnvFault>(
                output@,
            ),
            Err(error) => expanded(input@, *environment) matches Err(fault) && error@
                == fault_error(fault, config_file@),
        },
{
    let chars = text::chars_of(input);
    let mut output = String::new();
    let mut index: usize = 0;
    assert(chars@.skip(0) =~= chars@);
    proof {
        if let Ok(found) = expanded(chars@, *environment) {
            assert(Seq::<char>::empty() + found =~= found);
        }
    }
    while index < chars.len()
        invariant
            index <= chars@.len(),
            chars@ == input@,
            expanded(input@, *environment) == text_then(
                output@,
                expanded(chars@.skip(index as int), *environment),
            ),
        decreases chars@.len() - index,
    {
        let ghost rest = chars@.skip(index as int);
        let ghost read = output@;
        assert(rest.skip(1) =~= chars@.skip(index + 1));
        let reference = if chars[index] == '$' {
            find_reference(&chars, index)
        } else {
            None
        };
        match reference {
            Some((name, end)) => {
                assert(rest.skip(end - index) =~= chars@.skip(end as int));
                match environment.lookup(name.as_str()) {
                    Some(Some(value)) => {
                        output.append(value.as_str());
                        proof {
                            if let Ok(found) = expanded(chars@.skip(end as int), *environment) {
                                assert(read + (value@ + found) =~= output@ + found);
                            }
                        }
                    },
                    Some(None) => {
                        return Err(
                            ConfigError::InvalidEnvironmentVariable {
                                variable: name,
                                config_file: config_file.to_owned(),
                            },
                        );
                    },
                    None => {
                        return Err(
                            ConfigError::MissingEnvironmentVariable {
                                variable: name,
                                config_file: config_file.to_owned(),
                            },
                        );
                    },
                }
                index = end;
            },
            None => {
                output.push(chars[index]);
                proof {
                    if let Ok(found) = expanded(rest.skip(1), *environment) {
                        assert(read + (seq![rest[0]] + found) =~= output@ + found);
                    }
                }
                index += 1;
            },
        }
    }
    assert(output@ + Seq::<char>::empty() =~= output@);
    Ok(output)
}

/// Replaces the references in every string of a value, at any depth.
pub fn substitute_env_vars_in_value(
    value: &Json,
    config_file: &str,
    environment: &Environment,
) -> (result: Result<Json, ConfigError>)
    ensures
        match result {
            Ok(output) => expanded_json(value@, *environment) == Ok::<JsonView, EnvFault>(
                output@,
            ),
            Err(error) => expanded_json(value@, *environment) matches Err(fault)
                && error@ == fault_error(fault, config_file@),
        },
    decreases value,
{
    match value {
        Json::Text(string) => match substitute_env_vars(string.as_str(), config_file, environment) {
            Ok(output) => Ok(Json::Text(output)),
            Err(error) => Err(error),
        },
        Json::Array(items) => {
            let ghost all = json::items_view(items@);
            assert(value@->Array_0 =~= all);
            let mut results: Vec<Json> = Vec::new();
            let mut index: usize = 0;
            assert(all.take(0) =~= Seq::empty());
            assert(json::items_view(results@) =~= Seq::empty());
            while index < items.len()
                invariant
                    index <= items@.len(),
                    *value == Json::Array(*items),
                    value@ == JsonView::Array(all),
                    all == json::items_view(items@),
                    expanded_items(all.take(index as int), *environment) == Ok::<
                        Seq<JsonView>,
                        EnvFault,
                    >(json::items_view(results@)),
                decreases items@.len() - index,
            {
                assert(decreases_to!(value => (value->Array_0)@[index as int]));
                let ghost before = json::items_view(results@);
                assert(all.take(index + 1).drop_last() =~= all.take(index as int));
                assert(all.take(index + 1).last() == items@[index as int]@);
                match substitute_env_vars_in_value(&items[index], config_file, environment) {
                    Ok(output) => {
                        results.push(output);
                        assert(json::items_view(results@) =~= before.push(output@));
                    },
                    Err(error) => {
                        proof {
                            lemma_items_fault(all, index + 1, *environment);
                        }
                        return Err(error);
                    },
                }
                index += 1;
            }
            assert(all.take(index as int) =~= all);
            Ok(json::array(results))
        },
        Json::Object(members) => {
            let ghost all = json::members_view(members@);
            assert(value@->Object_0 =~= all);
            let mut results: Vec<(String, Json)> = Vec::new();
            let mut index: usize = 0;
            assert(all.take(0) =~= Seq::empty());
            assert(json::members_view(results@) =~= Seq::empty());
            while index < members.len()
                invariant
                    index <= members@.len(),
                    *value == Json::Object(*members),
                    value@ == JsonView::Object(all),
                    all == json::members_view(members@),
                    expanded_members(all.take(index as int), *environment) == Ok::<
                        Seq<(Seq<char>, JsonView)>,
                        EnvFault,
                    >(json::members_view(results@)),
                decreases members@.len() - index,
            {
                assert(decreases_to!(value => (value->Object_0)@[index as int].1));
                let ghost before = json::members_view(results@);
                assert(all.take(index + 1).drop_last() =~= all.take(index as int));
                match substitute_env_vars_in_value(&members[index].1, config_file, environment) {
                    Ok(output) => {
                        results.push((members[index].0.clone(), output));
                        assert(json::members_view(results@) =~= before.push(
                            (members@[index as int].0@, output@),
                        ));
                    },
                    Err(error) => {
                        proof {
                            lemma_members_fault(all, index + 1, *environment);
                        }
                        return Err(error);
                    },
                }
                index += 1;
            }
            assert(all.take(index as int) =~= all);
            Ok(json::object(results))
        },
        _ => Ok(value.copy()),
    }
}

proof fn lemma_items_fault(
    items: Seq<JsonView>,
    count: int,
    environment: Environment,
)
    requires
        0 <= count <= items.len(),
        expanded_items(items.take(count), environment) is Err,
    ensures
        expanded_items(items, environment) == expanded_items(items.take(count), environment),
    decreases items.len(),
{
    if count == items.len() {
        assert(items.take(count) =~= items);
    } else {
        assert(items.drop_last().take(count) =~= items.take(count));
        lemma_items_fault(items.drop_last(), count, environment);
    }
}

proof fn lemma_members_fault(
    members: Seq<(Seq<char>, JsonView)>,
    count: int,
    environment: Environment,
)
    requires
        0 <= count <= members.len(),
        expanded_members(members.take(count), environment) is Err,
    ensures
        expanded_members(members, environment) == expanded_members(members.take(count), environment),
    decreases members.len(),
{
    if count == members.len() {
        assert(members.take(count) =~= members);
    } else {
        assert(members.drop_last().take(count) =~= members.take(count));
        lemma_members_fault(members.drop_last(), count, environment);
    }
}

/// The name of a variable is an underscore or a letter, and then any number of underscores, letters
/// and digits.
pub proof fn law_names_hold_letters_digits_and_underscores(name: Seq<char>, ch: char)
    ensures
        starts_name(ch) <==> ch == '_' || 'a' <= ch <= 'z' || 'A' <= ch <= 'Z',
        continues_name(ch) <==> ch == '_' || 'a' <= ch <= 'z' || 'A' <= ch <= 'Z' || '0' <= ch
            <= '9',
        is_name(name) <==> name.len() > 0 && !('0' <= name[0] <= '9') && forall|i: int|
            0 <= i < name.len() ==> (#[trigger] name[i] == '_' || 'a' <= name[i] <= 'z' || 'A'
                <= name[i] <= 'Z' || '0' <= name[i] <= '9'),
{
    if name.len() > 0 && !('0' <= name[0] <= '9') && forall|i: int|
        0 <= i < name.len() ==> (#[trigger] name[i] == '_' || 'a' <= name[i] <= 'z' || 'A'
            <= name[i] <= 'Z' || '0' <= name[i] <= '9') {
        assert forall|i: int| 0 <= i < name.len() implies continues_name(#[trigger] name[i]) by {
        }
    }
    if is_name(name) {
        assert forall|i: int| 0 <= i < name.len() implies (#[trigger] name[i] == '_' || 'a'
            <= name[i] <= 'z' || 'A' <= name[i] <= 'Z' || '0' <= name[i] <= '9') by {
            assert(continues_name(name[i]));
        }
    }
}

/// A run of name characters ends at the first other one.
proof fn lemma_name_run_is(chars: Seq<char>, end: int)
    requires
        0 <= end <= chars.len(),
        forall|i: int| 0 <= i < end ==> continues_name(#[trigger] chars[i]),
        end < chars.len() ==> !continues_name(chars[end]),
    ensures
        name_run(chars) == end,
    decreases end,
{
    if end > 0 {
        let rest = chars.skip(1);
        assert(continues_name(chars[0]));
        assert forall|i: int| 0 <= i < end - 1 implies continues_name(#[trigger] rest[i]) by {
            assert(rest[i] == chars[i + 1]);
        }
        lemma_name_run_is(rest, end - 1);
    }
}

/// A reference without braces goes as far as a name can go, and is replaced by the variable's
/// value.
pub proof fn law_plain_reference_is_replaced(
    name: Seq<char>,
    value: Seq<char>,
    tail: Seq<char>,
    environment: Environment,
)
    requires
        is_name(name),
        tail.len() > 0 ==> !continues_name(tail[0]),
        variable_of(environment, name) == VariableView::Value(value),
    ensures
        match expanded(tail, environment) {
            Ok(rest) => expanded(seq!['$'] + name + tail, environment) == Ok::<
                Seq<char>,
                EnvFault,
            >(value + rest),
            Err(fault) => expanded(seq!['$'] + name + tail, environment) == Err::<
                Seq<char>,
                EnvFault,
            >(fault),
        },
{
    lemma_plain_reference(name, tail);
    let input = seq!['$'] + name + tail;
    assert(input.skip(name.len() as int + 1) =~= tail);
}

/// What a reference without braces refers to.
proof fn lemma_plain_reference(name: Seq<char>, tail: Seq<char>)
    requires
        is_name(name),
        tail.len() > 0 ==> !continues_name(tail[0]),
    ensures
        reference_at(seq!['$'] + name + tail) == Some((name, name.len() as int + 1)),
{
    let input = seq!['$'] + name + tail;
    let rest = input.skip(1);
    assert(rest =~= name + tail);
    assert(input[1] == name[0]);
    assert(starts_name(name[0]));
    assert forall|i: int| 0 <= i < name.len() implies continues_name(#[trigger] rest[i]) by {
        assert(rest[i] == name[i]);
        assert(continues_name(name[i]));
    }
    if tail.len() > 0 {
        assert(rest[name.len() as int] == tail[0]);
    }
    lemma_name_run_is(rest, name.len() as int);
    assert(rest.take(name.len() as int) =~= name);
}

/// A variable that is missing, or has no valid value, is a fault, whatever stands behind the
/// reference.
pub proof fn law_variables_without_a_value_are_faults(
    name: Seq<char>,
    tail: Seq<char>,
    environment: Environment,
)
    requires
        is_name(name),
    ensures
        variable_of(environment, name) is Missing ==> expanded(
            seq!['$', '{'] + name + seq!['}'] + tail,
            environment,
        ) == Err::<Seq<char>, EnvFault>(EnvFault::Missing(name)),
        variable_of(environment, name) is Invalid ==> expanded(
            seq!['$', '{'] + name + seq!['}'] + tail,
            environment,
        ) == Err::<Seq<char>, EnvFault>(EnvFault::Invalid(name)),
        (tail.len() > 0 ==> !continues_name(tail[0])) && variable_of(environment, name) is Missing
            ==> expanded(seq!['$'] + name + tail, environment) == Err::<Seq<char>, EnvFault>(
            EnvFault::Missing(name),
        ),
        (tail.len() > 0 ==> !continues_name(tail[0])) && variable_of(environment, name) is Invalid
            ==> expanded(seq!['$'] + name + tail, environment) == Err::<Seq<char>, EnvFault>(
            EnvFault::Invalid(name),
        ),
{
    let input = seq!['$', '{'] + name + seq!['}'] + tail;
    let rest = input.skip(2);
    assert forall|i: int| 0 <= i < name.len() implies rest[i] != '}' by {
        assert(rest[i] == name[i]);
        assert(continues_name(name[i]));
    }
    text::lemma_position_is(rest, '}', name.len() as int);
    assert(rest.take(name.len() as int) =~= name);
    if tail.len() > 0 ==> !continues_name(tail[0]) {
        lemma_plain_reference(name, tail);
    }
}

/// All that is no reference stands for itself: any other character, and a dollar sign with neither a
/// name nor a name in braces behind it.
pub proof fn law_what_is_no_reference_stands_for_itself(
    ch: char,
    tail: Seq<char>,
    environment: Environment,
)
    requires
        ch == '$' ==> (tail.len() > 0 ==> !starts_name(tail[0])),
        ch == '$' && tail.len() > 0 && tail[0] == '{' ==> forall|end: int|
            0 < end < tail.len() && #[trigger] tail[end] == '}' ==> !is_name(
                tail.subrange(1, end),
            ),
    ensures
        expanded(Seq::empty(), environment) == Ok::<Seq<char>, EnvFault>(Seq::empty()),
        match expanded(tail, environment) {
            Ok(rest) => expanded(seq![ch] + tail, environment) == Ok::<Seq<char>, EnvFault>(
                seq![ch] + rest,
            ),
            Err(fault) => expanded(seq![ch] + tail, environment) == Err::<Seq<char>, EnvFault>(
                fault,
            ),
        },
{
    let input = seq![ch] + tail;
    assert(input.skip(1) =~= tail);
    if ch == '$' && tail.len() > 0 {
        assert(input[1] == tail[0]);
        if tail[0] == '{' {
            let rest = input.skip(2);
            let length = text::position_of(rest, '}') as int;
            text::lemma_position_of(rest, '}');
            if length < rest.len() {
                assert(tail[length + 1] == rest[length]);
                assert(rest.take(length) =~= tail.subrange(1, length + 1));
            }
        }
    }
}

/// The first variable with a name decides what its value is; on Windows the case of its letters
/// does not count.
pub proof fn law_the_first_variable_with_a_name_counts(
    environment: Environment,
    name: Seq<char>,
    place: int,
)
    requires
        0 <= place <= environment.variables@.len(),
        place < environment.variables@.len() ==> is_same_name(
            environment.style,
            environment.variables@[place].0@,
            name,
        ),
        forall|i: int|
            0 <= i < place ==> !is_same_name(
                environment.style,
                (#[trigger] environment.variables@[i]).0@,
                name,
            ),
    ensures
        place == environment.variables@.len() ==> variable_of(environment, name) is Missing,
        place < environment.variables@.len() ==> variable_of(environment, name) == (
        match environment.variables@[place].1 {
            Some(value) => VariableView::Value(value@),
            None => VariableView::Invalid,
        }),
{
    lemma_variable_in(environment.style, environment.variables@, name, place);
}

/// The first variable with a name decides.
proof fn lemma_variable_in(
    style: Style,
    variables: Seq<(String, Option<String>)>,
    name: Seq<char>,
    place: int,
)
    requires
        0 <= place <= variables.len(),
        place < variables.len() ==> is_same_name(style, variables[place].0@, name),
        forall|i: int|
            0 <= i < place ==> !is_same_name(style, (#[trigger] variables[i]).0@, name),
    ensures
        variable_in(style, variables, name) == (if place == variables.len() {
            VariableView::Missing
        } else {
            match variables[place].1 {
                Some(value) => VariableView::Value(value@),
                None => VariableView::Invalid,
            }
        }),
    decreases place,
{
    if place > 0 {
        let rest = variables.skip(1);
        assert(!is_same_name(style, variables[0].0@, name));
        assert forall|i: int| 0 <= i < place - 1 implies !is_same_name(
            style,
            (#[trigger] rest[i]).0@,
            name,
        ) by {
            assert(rest[i] == variables[i + 1]);
        }
        lemma_variable_in(style, rest, name, place - 1);
    }
}

/// Names are the same where they hold the same characters; on Windows a letter is the same in both
/// of its cases.
pub proof fn law_only_windows_ignores_case(a: Seq<char>, b: Seq<char>)
    ensures
        is_same_name(Style::Unix, a, b) <==> a == b,
        is_same_name(Style::Windows, a, b) <==> a.len() == b.len() && forall|i: int|
            #![trigger a[i]]
            0 <= i < a.len() ==> (a[i] == b[i] || ('a' <= a[i] <= 'z' && a[i] as u32 - 32
                == b[i] as u32) || ('a' <= b[i] <= 'z' && b[i] as u32 - 32 == a[i] as u32)),
{
    if a.len() == b.len() {
        assert forall|i: int| 0 <= i < a.len() implies (text::upper(#[trigger] a[i]) == text::upper(
            b[i],
        )) == (a[i] == b[i] || ('a' <= a[i] <= 'z' && a[i] as u32 - 32 == b[i] as u32) || ('a'
            <= b[i] <= 'z' && b[i] as u32 - 32 == a[i] as u32)) by {
        }
    }
}

/// In a document the references in all strings are replaced, in items and in members, whose names
/// stay; other values stay as they are, and a fault anywhere is the fault of the whole.
pub proof fn law_references_in_documents_are_replaced(
    value: JsonView,
    environment: Environment,
    at: int,
)
    ensures
        match value {
            JsonView::Text(string) => match expanded(string, environment) {
                Ok(replaced) => expanded_json(value, environment) == Ok::<JsonView, EnvFault>(
                    JsonView::Text(replaced),
                ),
                Err(fault) => expanded_json(value, environment) == Err::<JsonView, EnvFault>(fault),
            },
            JsonView::Array(items) => match expanded_json(value, environment) {
                Ok(JsonView::Array(replaced)) => replaced.len() == items.len() && (0 <= at
                    < items.len() ==> expanded_json(items[at], environment) == Ok::<
                    JsonView,
                    EnvFault,
                >(replaced[at])),
                Ok(_) => false,
                Err(fault) => exists|i: int|
                    0 <= i < items.len() && expanded_json(#[trigger] items[i], environment)
                        == Err::<JsonView, EnvFault>(fault),
            },
            JsonView::Object(members) => match expanded_json(value, environment) {
                Ok(JsonView::Object(replaced)) => replaced.len() == members.len() && (0 <= at
                    < members.len() ==> replaced[at].0 == members[at].0 && expanded_json(
                    members[at].1,
                    environment,
                ) == Ok::<JsonView, EnvFault>(replaced[at].1)),
                Ok(_) => false,
                Err(fault) => exists|i: int|
                    0 <= i < members.len() && expanded_json(
                        (#[trigger] members[i]).1,
                        environment,
                    ) == Err::<JsonView, EnvFault>(fault),
            },
            _ => expanded_json(value, environment) == Ok::<JsonView, EnvFault>(value),
        },
{
    match value {
        JsonView::Array(items) => lemma_expanded_items(items, environment, at),
        JsonView::Object(members) => lemma_expanded_members(members, environment, at),
        _ => {},
    }
}

/// The items of an array are expanded one for one.
proof fn lemma_expanded_items(items: Seq<JsonView>, environment: Environment, at: int)
    ensures
        match expanded_items(items, environment) {
            Ok(replaced) => replaced.len() == items.len() && (0 <= at < items.len()
                ==> expanded_json(items[at], environment) == Ok::<JsonView, EnvFault>(
                replaced[at],
            )),
            Err(fault) => exists|i: int|
                0 <= i < items.len() && expanded_json(#[trigger] items[i], environment) == Err::<
                    JsonView,
                    EnvFault,
                >(fault),
        },
    decreases items.len(),
{
    if items.len() > 0 {
        let rest = items.drop_last();
        lemma_expanded_items(rest, environment, at);
        if let Err(fault) = expanded_items(rest, environment) {
            let i = choose|i: int|
                0 <= i < rest.len() && expanded_json(#[trigger] rest[i], environment) == Err::<
                    JsonView,
                    EnvFault,
                >(fault);
            assert(items[i] == rest[i]);
        } else {
            assert(items[items.len() - 1] == items.last());
        }
    }
}

/// The members of an object are expanded one for one.
proof fn lemma_expanded_members(
    members: Seq<(Seq<char>, JsonView)>,
    environment: Environment,
    at: int,
)
    ensures
        match expanded_members(members, environment) {
            Ok(replaced) => replaced.len() == members.len() && (0 <= at < members.len()
                ==> replaced[at].0 == members[at].0 && expanded_json(members[at].1, environment)
                == Ok::<JsonView, EnvFault>(replaced[at].1)),
            Err(fault) => exists|i: int|
                0 <= i < members.len() && expanded_json((#[trigger] members[i]).1, environment)
                    == Err::<JsonView, EnvFault>(fault),
        },
    decreases members.len(),
{
    if members.len() > 0 {
        let rest = members.drop_last();
        lemma_expanded_members(rest, environment, at);
        if let Err(fault) = expanded_members(rest, environment) {
            let i = choose|i: int|
                0 <= i < rest.len() && expanded_json((#[trigger] rest[i]).1, environment) == Err::<
                    JsonView,
                    EnvFault,
                >(fault);
            assert(members[i] == rest[i]);
        } else {
            assert(members[members.len() - 1] == members.last());
        }
    }
}

/// A variable that is missing and one that cannot be read are different errors, each of which names
/// the variable and the file that refers to it.
pub proof fn law_faults_name_variable_and_file(variable: Seq<char>, config_file: Seq<char>)
    ensures
        fault_error(EnvFault::Missing(variable), config_file) == (
        ConfigErrorView::MissingEnvironmentVariable { variable, config_file }),
        fault_error(EnvFault::Invalid(variable), config_file) == (
        ConfigErrorView::InvalidEnvironmentVariable { variable, config_file }),
{
}

} // verus!
