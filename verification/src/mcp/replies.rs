//! What the tools answer, as JSON values.
use crate::fstar::messages::{
    self, FStarRange, FStarRangeView, IdeDiagnostic, IdeDiagnosticView, IdeLookupResponse,
    IdeLookupView, IdeProofState, IdeProofStateView,
};
use crate::fstar::process::{self, FragmentResult, FragmentStatus, FragmentView};
use crate::json::{self, Json, JsonView};
use crate::session::manager::{self, SessionInfo, SessionInfoView};
use crate::text;
use vstd::prelude::*;

verus! {

/// `members` with another one, where it has a value.
pub open spec fn with_optional(
    members: Seq<(Seq<char>, JsonView)>,
    key: Seq<char>,
    value: Option<JsonView>,
) -> Seq<(Seq<char>, JsonView)> {
    match value {
        Some(found) => members.push((key, found)),
        None => members,
    }
}

/// A string that may be missing as a value.
pub open spec fn text_value(string: Option<Seq<char>>) -> Option<JsonView> {
    match string {
        Some(found) => Some(JsonView::Text(found)),
        None => None,
    }
}

/// A range with its file as a value.
pub open spec fn range_value(range: FStarRangeView) -> JsonView {
    JsonView::Object(
        seq![
            ("file"@, JsonView::Text(range.fname)),
            ("start_line"@, JsonView::Integer(range.beg.0 as int)),
            ("start_column"@, JsonView::Integer(range.beg.1 as int)),
            ("end_line"@, JsonView::Integer(range.end.0 as int)),
            ("end_column"@, JsonView::Integer(range.end.1 as int)),
        ],
    )
}

/// A range that may be missing as a value.
pub open spec fn optional_range_value(range: Option<FStarRangeView>) -> Option<JsonView> {
    match range {
        Some(found) => Some(range_value(found)),
        None => None,
    }
}

/// Ranges as values.
pub open spec fn range_values(ranges: Seq<FStarRangeView>) -> JsonView {
    JsonView::Array(Seq::new(ranges.len(), |i: int| range_value(ranges[i])))
}

/// The number of a diagnostic as a value.
pub open spec fn number_value(number: Option<i32>) -> Option<JsonView> {
    match number {
        Some(found) => Some(JsonView::Integer(found as int)),
        None => None,
    }
}

/// A diagnostic as a value: the first range is where it is, the others are related.
pub open spec fn diagnostic_value(diagnostic: IdeDiagnosticView) -> JsonView {
    let ranges = diagnostic.ranges;
    let members = seq![
        ("level"@, JsonView::Text(diagnostic.level)),
        ("message"@, JsonView::Text(diagnostic.message)),
    ];
    let numbered = with_optional(members, "number"@, number_value(diagnostic.number));
    let located = with_optional(
        numbered,
        "range"@,
        optional_range_value(
            if ranges.len() > 0 {
                Some(ranges[0])
            } else {
                None
            },
        ),
    );
    JsonView::Object(
        located.push(
            (
                "related_ranges"@,
                range_values(
                    if ranges.len() > 0 {
                        ranges.skip(1)
                    } else {
                        Seq::empty()
                    },
                ),
            ),
        ),
    )
}

/// The first `limit` diagnostics as values.
pub open spec fn diagnostic_values(diagnostics: Seq<IdeDiagnosticView>, limit: nat) -> JsonView {
    let count = if diagnostics.len() < limit {
        diagnostics.len()
    } else {
        limit
    };
    JsonView::Array(Seq::new(count, |i: int| diagnostic_value(diagnostics[i])))
}

/// The name of a status.
pub open spec fn status_name(status: FragmentStatus) -> Seq<char> {
    match status {
        FragmentStatus::Verified => "ok"@,
        FragmentStatus::LaxOk => "lax-ok"@,
        FragmentStatus::Failed => "failed"@,
        FragmentStatus::InProgress => "in-progress"@,
    }
}

/// A fragment as a value.
pub open spec fn fragment_value(fragment: FragmentView) -> JsonView {
    JsonView::Object(
        seq![
            ("start_line"@, JsonView::Integer(fragment.range.beg.0 as int)),
            ("start_column"@, JsonView::Integer(fragment.range.beg.1 as int)),
            ("end_line"@, JsonView::Integer(fragment.range.end.0 as int)),
            ("end_column"@, JsonView::Integer(fragment.range.end.1 as int)),
            ("status"@, JsonView::Text(status_name(fragment.status))),
        ],
    )
}

/// Fragments as values.
pub open spec fn fragment_values(fragments: Seq<FragmentView>) -> JsonView {
    JsonView::Array(Seq::new(fragments.len(), |i: int| fragment_value(fragments[i])))
}

/// The result of a lookup as a value. A module is defined at the start of its file.
pub open spec fn lookup_value(found: Option<IdeLookupView>) -> JsonView {
    match found {
        Some(IdeLookupView::Symbol { name, type_info, documentation, defined_at }) => {
            let members = seq![
                ("kind"@, JsonView::Text("symbol"@)),
                ("name"@, JsonView::Text(name)),
            ];
            let typed = with_optional(members, "type_info"@, text_value(type_info));
            let documented = with_optional(typed, "documentation"@, text_value(documentation));
            JsonView::Object(
                with_optional(documented, "defined_at"@, optional_range_value(defined_at)),
            )
        },
        Some(IdeLookupView::Module { name, path }) => JsonView::Object(
            seq![
                ("kind"@, JsonView::Text("module"@)),
                ("name"@, JsonView::Text(name)),
                ("defined_at"@, range_value(FStarRangeView { fname: path, beg: (1, 0), end: (1, 0) })),
            ],
        ),
        None => JsonView::Object(seq![("kind"@, JsonView::Text("not_found"@))]),
    }
}

/// What a client is told of a session as a value.
pub open spec fn info_value(info: SessionInfoView) -> JsonView {
    let members = seq![
        ("session_id"@, JsonView::Text(info.session_id)),
        ("file_path"@, JsonView::Text(info.file_path)),
        ("created_at"@, JsonView::Text(info.created_at)),
        ("last_activity"@, JsonView::Text(info.last_activity)),
        ("idle_seconds"@, JsonView::Integer(info.idle_seconds)),
    ];
    JsonView::Object(
        with_optional(members, "mcp_session_id"@, text_value(info.mcp_session_id)).push(
            ("marked_for_deletion"@, JsonView::Bool(info.marked_for_deletion)),
        ),
    )
}

/// What a client is told of its sessions as a value.
pub open spec fn sessions_value(infos: Seq<SessionInfoView>) -> JsonView {
    JsonView::Object(
        seq![
            ("count"@, JsonView::Integer(infos.len() as int)),
            (
                "sessions"@,
                JsonView::Array(Seq::new(infos.len(), |i: int| info_value(infos[i]))),
            ),
        ],
    )
}

/// Proof states as a value: those of a check, or the first one on a line.
pub open spec fn proof_context_value(
    states: Seq<IdeProofStateView>,
    line: Option<u32>,
) -> JsonView {
    match line {
        Some(wanted) => {
            let place = first_on_line(states, wanted) as int;
            JsonView::Object(
                seq![
                    ("found"@, JsonView::Bool(place < states.len())),
                    ("line"@, JsonView::Integer(wanted as int)),
                    (
                        "proof_state"@,
                        if place < states.len() {
                            states[place].contents
                        } else {
                            JsonView::Null
                        },
                    ),
                ],
            )
        },
        None => JsonView::Object(
            seq![
                ("count"@, JsonView::Integer(states.len() as int)),
                (
                    "proof_states"@,
                    JsonView::Array(Seq::new(states.len(), |i: int| states[i].contents)),
                ),
            ],
        ),
    }
}

/// The place of the first state that begins on the line, or the number of states.
pub open spec fn first_on_line(states: Seq<IdeProofStateView>, line: u32) -> nat
    decreases states.len(),
{
    if states.len() == 0 || states[0].location.beg.0 == line {
        0
    } else {
        1 + first_on_line(states.skip(1), line)
    }
}

/// Adds a member, where it has a value.
pub fn put_optional(members: &mut Vec<(String, Json)>, key: &str, value: Option<Json>)
    ensures
        json::members_view(final(members)@) == with_optional(
            json::members_view(old(members)@),
            key@,
            json::opt_json(value),
        ),
{
    match value {
        Some(found) => json::put(members, key, found),
        None => {},
    }
}

/// A string that may be missing as a value.
fn text_to_json(string: &Option<String>) -> (value: Option<Json>)
    ensures
        json::opt_json(value) == text_value(text::opt_text(*string)),
{
    match string {
        Some(found) => Some(json::text(found.as_str())),
        None => None,
    }
}

/// A range with its file as a value.
pub fn range_to_json(range: &FStarRange) -> (value: Json)
    ensures
        value@ == range_value(range@),
{
    let mut members: Vec<(String, Json)> = Vec::new();
    json::put(&mut members, "file", json::text(range.fname.as_str()));
    json::put(&mut members, "start_line", Json::Integer(range.beg.0 as i128));
    json::put(&mut members, "start_column", Json::Integer(range.beg.1 as i128));
    json::put(&mut members, "end_line", Json::Integer(range.end.0 as i128));
    json::put(&mut members, "end_column", Json::Integer(range.end.1 as i128));
    let value = json::object(members);
    assert(value@->Object_0 =~= range_value(range@)->Object_0);
    value
}

/// The ranges from a place on as values.
fn ranges_to_json(ranges: &Vec<FStarRange>, from: usize) -> (value: Json)
    requires
        from <= ranges@.len(),
    ensures
        value@ == range_values(messages::ranges_view(ranges@).skip(from as int)),
{
    let mut items: Vec<Json> = Vec::new();
    let mut index: usize = from;
    while index < ranges.len()
        invariant
            from <= index <= ranges@.len(),
            items@.len() == index - from,
            forall|i: int|
                0 <= i < items@.len() ==> (#[trigger] items@[i])@ == range_value(
                    ranges@[from + i]@,
                ),
        decreases ranges@.len() - index,
    {
        items.push(range_to_json(&ranges[index]));
        index += 1;
    }
    let value = json::array(items);
    assert(value@->Array_0 =~= range_values(
        messages::ranges_view(ranges@).skip(from as int),
    )->Array_0);
    value
}

/// A diagnostic as a value.
pub fn diagnostic_to_json(diagnostic: &IdeDiagnostic) -> (value: Json)
    ensures
        value@ == diagnostic_value(diagnostic@),
{
    let mut members: Vec<(String, Json)> = Vec::new();
    json::put(&mut members, "level", json::text(diagnostic.level.as_str()));
    json::put(&mut members, "message", json::text(diagnostic.message.as_str()));
    assert(json::members_view(members@) =~= seq![
        ("level"@, JsonView::Text(diagnostic@.level)),
        ("message"@, JsonView::Text(diagnostic@.message)),
    ]);
    let number = match diagnostic.number {
        Some(found) => Some(Json::Integer(found as i128)),
        None => None,
    };
    put_optional(&mut members, "number", number);
    assert(diagnostic@.ranges.len() == diagnostic.ranges@.len());
    if diagnostic.ranges.len() > 0 {
        assert(diagnostic@.ranges[0] == diagnostic.ranges@[0]@);
        put_optional(&mut members, "range", Some(range_to_json(&diagnostic.ranges[0])));
        json::put(&mut members, "related_ranges", ranges_to_json(&diagnostic.ranges, 1));
    } else {
        put_optional(&mut members, "range", None);
        assert(diagnostic@.ranges.skip(0) =~= Seq::empty());
        json::put(&mut members, "related_ranges", ranges_to_json(&diagnostic.ranges, 0));
    }
    json::object(members)
}

/// The first `limit` diagnostics as values.
pub fn diagnostics_to_json(diagnostics: &Vec<IdeDiagnostic>, limit: usize) -> (value: Json)
    ensures
        value@ == diagnostic_values(messages::diagnostics_view(diagnostics@), limit as nat),
{
    let ghost all = messages::diagnostics_view(diagnostics@);
    let count: usize = if diagnostics.len() < limit {
        diagnostics.len()
    } else {
        limit
    };
    let mut items: Vec<Json> = Vec::new();
    let mut index: usize = 0;
    while index < count
        invariant
            index <= count <= diagnostics@.len(),
            items@.len() == index,
            forall|i: int|
                0 <= i < index ==> (#[trigger] items@[i])@ == diagnostic_value(diagnostics@[i]@),
        decreases count - index,
    {
        items.push(diagnostic_to_json(&diagnostics[index]));
        index += 1;
    }
    let value = json::array(items);
    assert(value@->Array_0 =~= diagnostic_values(all, limit as nat)->Array_0);
    value
}

/// A fragment as a value.
pub fn fragment_to_json(fragment: &FragmentResult) -> (value: Json)
    ensures
        value@ == fragment_value(fragment@),
{
    let status = match fragment.status {
        FragmentStatus::Verified => "ok",
        FragmentStatus::LaxOk => "lax-ok",
        FragmentStatus::Failed => "failed",
        FragmentStatus::InProgress => "in-progress",
    };
    let mut members: Vec<(String, Json)> = Vec::new();
    json::put(&mut members, "start_line", Json::Integer(fragment.range.beg.0 as i128));
    json::put(&mut members, "start_column", Json::Integer(fragment.range.beg.1 as i128));
    json::put(&mut members, "end_line", Json::Integer(fragment.range.end.0 as i128));
    json::put(&mut members, "end_column", Json::Integer(fragment.range.end.1 as i128));
    json::put(&mut members, "status", json::text(status));
    let value = json::object(members);
    assert(value@->Object_0 =~= fragment_value(fragment@)->Object_0);
    value
}

/// Fragments as values.
pub fn fragments_to_json(fragments: &Vec<FragmentResult>) -> (value: Json)
    ensures
        value@ == fragment_values(process::fragments_view(fragments@)),
{
    let mut items: Vec<Json> = Vec::new();
    let mut index: usize = 0;
    while index < fragments.len()
        invariant
            index <= fragments@.len(),
            items@.len() == index,
            forall|i: int|
                0 <= i < index ==> (#[trigger] items@[i])@ == fragment_value(fragments@[i]@),
        decreases fragments@.len() - index,
    {
        items.push(fragment_to_json(&fragments[index]));
        index += 1;
    }
    let value = json::array(items);
    assert(value@->Array_0 =~= fragment_values(process::fragments_view(fragments@))->Array_0);
    value
}

/// The result of a lookup as a value.
pub fn lookup_to_json(found: &Option<IdeLookupResponse>) -> (value: Json)
    ensures
        value@ == lookup_value(process::opt_lookup(*found)),
{
    let mut members: Vec<(String, Json)> = Vec::new();
    match found {
        Some(IdeLookupResponse::Symbol(symbol)) => {
            json::put(&mut members, "kind", json::text("symbol"));
            json::put(&mut members, "name", json::text(symbol.name.as_str()));
            assert(json::members_view(members@) =~= seq![
                ("kind"@, JsonView::Text("symbol"@)),
                ("name"@, JsonView::Text(symbol.name@)),
            ]);
            put_optional(&mut members, "type_info", text_to_json(&symbol.type_info));
            put_optional(&mut members, "documentation", text_to_json(&symbol.documentation));
            let defined_at = match &symbol.defined_at {
                Some(range) => Some(range_to_json(range)),
                None => None,
            };
            put_optional(&mut members, "defined_at", defined_at);
        },
        Some(IdeLookupResponse::Module(module)) => {
            let start = FStarRange { fname: module.path.clone(), beg: (1, 0), end: (1, 0) };
            json::put(&mut members, "kind", json::text("module"));
            json::put(&mut members, "name", json::text(module.name.as_str()));
            json::put(&mut members, "defined_at", range_to_json(&start));
        },
        None => json::put(&mut members, "kind", json::text("not_found")),
    }
    let value = json::object(members);
    assert(value@->Object_0 =~= lookup_value(process::opt_lookup(*found))->Object_0);
    value
}

/// What a client is told of a session as a value.
fn info_to_json(info: &SessionInfo) -> (value: Json)
    ensures
        value@ == info_value(info@),
{
    let mut members: Vec<(String, Json)> = Vec::new();
    json::put(&mut members, "session_id", json::text(info.session_id.as_str()));
    json::put(&mut members, "file_path", json::text(info.file_path.as_str()));
    json::put(&mut members, "created_at", json::text(info.created_at.as_str()));
    json::put(&mut members, "last_activity", json::text(info.last_activity.as_str()));
    json::put(&mut members, "idle_seconds", Json::Integer(info.idle_seconds as i128));
    assert(json::members_view(members@) =~= seq![
        ("session_id"@, JsonView::Text(info.session_id@)),
        ("file_path"@, JsonView::Text(info.file_path@)),
        ("created_at"@, JsonView::Text(info.created_at@)),
        ("last_activity"@, JsonView::Text(info.last_activity@)),
        ("idle_seconds"@, JsonView::Integer(info.idle_seconds as int)),
    ]);
    put_optional(&mut members, "mcp_session_id", text_to_json(&info.mcp_session_id));
    json::put(&mut members, "marked_for_deletion", Json::Bool(info.marked_for_deletion));
    json::object(members)
}

/// What a client is told of its sessions as a value.
pub fn sessions_to_json(infos: &Vec<SessionInfo>) -> (value: Json)
    ensures
        value@ == sessions_value(manager::infos_view(infos@)),
{
    let mut items: Vec<Json> = Vec::new();
    let mut index: usize = 0;
    while index < infos.len()
        invariant
            index <= infos@.len(),
            items@.len() == index,
            forall|i: int| 0 <= i < index ==> (#[trigger] items@[i])@ == info_value(infos@[i]@),
        decreases infos@.len() - index,
    {
        items.push(info_to_json(&infos[index]));
        index += 1;
    }
    let mut members: Vec<(String, Json)> = Vec::new();
    let ghost expected = sessions_value(manager::infos_view(infos@))->Object_0;
    assert(json::items_view(items@) =~= expected[1].1->Array_0);
    json::put(&mut members, "count", Json::Integer(infos.len() as i128));
    json::put(&mut members, "sessions", json::array(items));
    let value = json::object(members);
    assert(value@->Object_0 =~= expected);
    value
}

/// Proof states as a value: those of a check, or the first one on a line.
pub fn proof_context_to_json(states: &Vec<IdeProofState>, line: Option<u32>) -> (value: Json)
    ensures
        value@ == proof_context_value(messages::proof_states_view(states@), line),
{
    let ghost all = messages::proof_states_view(states@);
    let mut members: Vec<(String, Json)> = Vec::new();
    match line {
        Some(wanted) => {
            let mut place: usize = 0;
            assert(all.skip(0) =~= all);
            while place < states.len() && states[place].location.beg.0 != wanted
                invariant
                    place <= states@.len(),
                    all == messages::proof_states_view(states@),
                    first_on_line(all, wanted) == place + first_on_line(
                        all.skip(place as int),
                        wanted,
                    ),
                decreases states@.len() - place,
            {
                assert(all.skip(place as int)[0] == states@[place as int]@);
                assert(all.skip(place as int).skip(1) =~= all.skip(place + 1));
                place += 1;
            }
            if place < states.len() {
                assert(all.skip(place as int)[0] == states@[place as int]@);
            }
            assert(first_on_line(all, wanted) == place);
            let found = place < states.len();
            let state = if found {
                states[place].contents.copy()
            } else {
                Json::Null
            };
            json::put(&mut members, "found", Json::Bool(found));
            json::put(&mut members, "line", Json::Integer(wanted as i128));
            json::put(&mut members, "proof_state", state);
        },
        None => {
            let mut items: Vec<Json> = Vec::new();
            let mut index: usize = 0;
            while index < states.len()
                invariant
                    index <= states@.len(),
                    items@.len() == index,
                    forall|i: int|
                        0 <= i < index ==> (#[trigger] items@[i])@ == states@[i].contents@,
                decreases states@.len() - index,
            {
                items.push(states[index].contents.copy());
                index += 1;
            }
            assert(json::items_view(items@) =~= proof_context_value(
                all,
                line,
            )->Object_0[1].1->Array_0);
            json::put(&mut members, "count", Json::Integer(states.len() as i128));
            json::put(&mut members, "proof_states", json::array(items));
        },
    }
    let value = json::object(members);
    assert(value@->Object_0 =~= proof_context_value(all, line)->Object_0);
    value
}

/// A check reports no more diagnostics than the limit, the first ones, in order.
pub proof fn law_diagnostics_are_capped(diagnostics: Seq<IdeDiagnosticView>, limit: nat)
    ensures
        diagnostic_values(diagnostics, limit)->Array_0.len() <= limit,
        diagnostic_values(diagnostics, limit)->Array_0.len() <= diagnostics.len(),
        diagnostics.len() <= limit ==> diagnostic_values(diagnostics, limit)->Array_0.len()
            == diagnostics.len(),
        forall|i: int|
            0 <= i < diagnostic_values(diagnostics, limit)->Array_0.len() ==> (
            #[trigger] diagnostic_values(diagnostics, limit)->Array_0[i]) == diagnostic_value(
                diagnostics[i],
            ),
{
}

/// A diagnostic keeps its error number and all its ranges: the first one, and the others as
/// related ones.
pub proof fn law_diagnostics_keep_number_and_ranges(diagnostic: IdeDiagnosticView)
    ensures
        json::member(diagnostic_value(diagnostic), "number"@) == number_value(diagnostic.number),
        diagnostic.ranges.len() > 0 ==> json::member(diagnostic_value(diagnostic), "range"@)
            == Some(range_value(diagnostic.ranges[0])),
        diagnostic.ranges.len() > 0 ==> json::member(
            diagnostic_value(diagnostic),
            "related_ranges"@,
        ) == Some(range_values(diagnostic.ranges.skip(1))),
{
    reveal_strlit("level");
    reveal_strlit("message");
    reveal_strlit("number");
    reveal_strlit("range");
    reveal_strlit("related_ranges");
    assert("level"@[0] == 'l' && "range"@[0] == 'r' && "number"@.len() == 6);
    assert("level"@.len() == 5 && "range"@.len() == 5 && "message"@.len() == 7
        && "related_ranges"@.len() == 14);
    let ranges = diagnostic.ranges;
    let members = seq![
        ("level"@, JsonView::Text(diagnostic.level)),
        ("message"@, JsonView::Text(diagnostic.message)),
    ];
    let numbered = with_optional(members, "number"@, number_value(diagnostic.number));
    let first = if ranges.len() > 0 {
        Some(ranges[0])
    } else {
        None
    };
    let located = with_optional(numbered, "range"@, optional_range_value(first));
    let related = range_values(
        if ranges.len() > 0 {
            ranges.skip(1)
        } else {
            Seq::empty()
        },
    );
    let start = seq![("level"@, JsonView::Text(diagnostic.level))];
    let none = Seq::<(Seq<char>, JsonView)>::empty();
    assert(start =~= none.push(("level"@, JsonView::Text(diagnostic.level))));
    assert(members =~= start.push(("message"@, JsonView::Text(diagnostic.message))));
    assert forall|key: Seq<char>|
        key == "number"@ || key == "range"@ || key == "related_ranges"@ implies (
    #[trigger] json::member_in(members, key)) is None by {
        json::lemma_member_in_push(none, "level"@, JsonView::Text(diagnostic.level), key);
        json::lemma_member_in_push(start, "message"@, JsonView::Text(diagnostic.message), key);
    }
    assert forall|key: Seq<char>|
        key == "number"@ || key == "range"@ || key == "related_ranges"@ implies (
    #[trigger] json::member_in(located.push(("related_ranges"@, related)), key)) == (if key
        == "number"@ {
        number_value(diagnostic.number)
    } else if key == "range"@ {
        optional_range_value(first)
    } else {
        Some(related)
    }) by {
        assert(json::member_in(members, key) is None);
        if diagnostic.number is Some {
            json::lemma_member_in_push(
                members,
                "number"@,
                number_value(diagnostic.number)->0,
                key,
            );
        }
        if first is Some {
            json::lemma_member_in_push(numbered, "range"@, range_value(first->0), key);
        }
        json::lemma_member_in_push(located, "related_ranges"@, related, key);
    }
}

/// An optional member is found where it has a value, and leaves what stood before.
proof fn lemma_with_optional(
    members: Seq<(Seq<char>, JsonView)>,
    key: Seq<char>,
    value: Option<JsonView>,
    name: Seq<char>,
)
    ensures
        json::member_in(with_optional(members, key, value), name) == if json::member_in(
            members,
            name,
        ) is Some {
            json::member_in(members, name)
        } else if key == name {
            value
        } else {
            None
        },
{
    if let Some(found) = value {
        json::lemma_member_in_push(members, key, found, name);
    }
}

/// A range is answered with its file and both of its ends.
pub proof fn law_ranges_are_answered(range: FStarRangeView)
    ensures
        ({
            let value = range_value(range);
            &&& json::member(value, "file"@) == Some(JsonView::Text(range.fname))
            &&& json::member(value, "start_line"@) == Some(
                JsonView::Integer(range.beg.0 as int),
            )
            &&& json::member(value, "start_column"@) == Some(
                JsonView::Integer(range.beg.1 as int),
            )
            &&& json::member(value, "end_line"@) == Some(JsonView::Integer(range.end.0 as int))
            &&& json::member(value, "end_column"@) == Some(JsonView::Integer(range.end.1 as int))
        }),
{
    let members = range_value(range)->Object_0;
    reveal_strlit("file");
    reveal_strlit("start_line");
    reveal_strlit("start_column");
    reveal_strlit("end_line");
    reveal_strlit("end_column");
    assert("file"@.len() == 4);
    assert("start_line"@.len() == 10);
    assert("start_column"@.len() == 12);
    assert("end_line"@.len() == 8);
    assert("end_column"@.len() == 10);
    assert("end_column"@[0] == 'e');
    assert("start_line"@[0] == 's');
    json::law_first_member_is_found(members, 0);
    json::law_first_member_is_found(members, 1);
    json::law_first_member_is_found(members, 2);
    json::law_first_member_is_found(members, 3);
    json::law_first_member_is_found(members, 4);
}

/// A fragment is answered with both of its ends and the name of its status.
pub proof fn law_fragments_are_answered(fragment: FragmentView)
    ensures
        ({
            let value = fragment_value(fragment);
            &&& json::member(value, "start_line"@) == Some(
                JsonView::Integer(fragment.range.beg.0 as int),
            )
            &&& json::member(value, "start_column"@) == Some(
                JsonView::Integer(fragment.range.beg.1 as int),
            )
            &&& json::member(value, "end_line"@) == Some(
                JsonView::Integer(fragment.range.end.0 as int),
            )
            &&& json::member(value, "end_column"@) == Some(
                JsonView::Integer(fragment.range.end.1 as int),
            )
            &&& fragment.status is Verified ==> json::member(value, "status"@) == Some(
                JsonView::Text("ok"@),
            )
            &&& fragment.status is LaxOk ==> json::member(value, "status"@) == Some(
                JsonView::Text("lax-ok"@),
            )
            &&& fragment.status is Failed ==> json::member(value, "status"@) == Some(
                JsonView::Text("failed"@),
            )
            &&& fragment.status is InProgress ==> json::member(value, "status"@) == Some(
                JsonView::Text("in-progress"@),
            )
        }),
{
    let members = fragment_value(fragment)->Object_0;
    reveal_strlit("start_line");
    reveal_strlit("start_column");
    reveal_strlit("end_line");
    reveal_strlit("end_column");
    reveal_strlit("status");
    assert("start_line"@.len() == 10);
    assert("start_column"@.len() == 12);
    assert("end_line"@.len() == 8);
    assert("end_column"@.len() == 10);
    assert("status"@.len() == 6);
    assert("end_column"@[0] == 'e');
    assert("start_line"@[0] == 's');
    json::law_first_member_is_found(members, 0);
    json::law_first_member_is_found(members, 1);
    json::law_first_member_is_found(members, 2);
    json::law_first_member_is_found(members, 3);
    json::law_first_member_is_found(members, 4);
}

/// All fragments are answered, in their order.
pub proof fn law_all_fragments_are_answered(fragments: Seq<FragmentView>, at: int)
    ensures
        match fragment_values(fragments) {
            JsonView::Array(items) => items.len() == fragments.len() && (0 <= at < fragments.len()
                ==> items[at] == fragment_value(fragments[at])),
            _ => false,
        },
{
}

/// The answer for a symbol holds its name, and its type, its documentation and the range where it
/// is defined exactly where they are known.
pub proof fn law_symbols_are_answered(
    name: Seq<char>,
    type_info: Option<Seq<char>>,
    documentation: Option<Seq<char>>,
    defined_at: Option<FStarRangeView>,
)
    ensures
        ({
            let value = lookup_value(
                Some(IdeLookupView::Symbol { name, type_info, documentation, defined_at }),
            );
            &&& json::member(value, "kind"@) == Some(JsonView::Text("symbol"@))
            &&& json::member(value, "name"@) == Some(JsonView::Text(name))
            &&& match type_info {
                Some(found) => json::member(value, "type_info"@) == Some(JsonView::Text(found)),
                None => json::member(value, "type_info"@) is None,
            }
            &&& match documentation {
                Some(found) => json::member(value, "documentation"@) == Some(
                    JsonView::Text(found),
                ),
                None => json::member(value, "documentation"@) is None,
            }
            &&& match defined_at {
                Some(found) => json::member(value, "defined_at"@) == Some(range_value(found)),
                None => json::member(value, "defined_at"@) is None,
            }
        }),
{
    reveal_strlit("kind");
    reveal_strlit("name");
    reveal_strlit("type_info");
    reveal_strlit("documentation");
    reveal_strlit("defined_at");
    assert("kind"@.len() == 4);
    assert("name"@.len() == 4);
    assert("type_info"@.len() == 9);
    assert("documentation"@.len() == 13);
    assert("defined_at"@.len() == 10);
    assert("kind"@[0] == 'k');
    assert("name"@[0] == 'n');
    let none = Seq::<(Seq<char>, JsonView)>::empty();
    let kind = none.push(("kind"@, JsonView::Text("symbol"@)));
    let members = kind.push(("name"@, JsonView::Text(name)));
    assert(members =~= seq![
        ("kind"@, JsonView::Text("symbol"@)),
        ("name"@, JsonView::Text(name)),
    ]);
    let typed = with_optional(members, "type_info"@, text_value(type_info));
    let documented = with_optional(typed, "documentation"@, text_value(documentation));
    assert forall|key: Seq<char>| true implies (#[trigger] json::member_in(
        with_optional(documented, "defined_at"@, optional_range_value(defined_at)),
        key,
    )) == (if key == "kind"@ {
        Some(JsonView::Text("symbol"@))
    } else if key == "name"@ {
        Some(JsonView::Text(name))
    } else if key == "type_info"@ {
        text_value(type_info)
    } else if key == "documentation"@ {
        text_value(documentation)
    } else if key == "defined_at"@ {
        optional_range_value(defined_at)
    } else {
        None
    }) by {
        json::lemma_member_in_push(none, "kind"@, JsonView::Text("symbol"@), key);
        json::lemma_member_in_push(kind, "name"@, JsonView::Text(name), key);
        lemma_with_optional(members, "type_info"@, text_value(type_info), key);
        lemma_with_optional(typed, "documentation"@, text_value(documentation), key);
        lemma_with_optional(documented, "defined_at"@, optional_range_value(defined_at), key);
    }
}

/// The answer for a module holds its name and the start of its file; the answer for nothing says
/// that nothing was found.
pub proof fn law_modules_are_answered(name: Seq<char>, path: Seq<char>)
    ensures
        ({
            let value = lookup_value(Some(IdeLookupView::Module { name, path }));
            &&& json::member(value, "kind"@) == Some(JsonView::Text("module"@))
            &&& json::member(value, "name"@) == Some(JsonView::Text(name))
            &&& json::member(value, "defined_at"@) == Some(
                range_value(FStarRangeView { fname: path, beg: (1, 0), end: (1, 0) }),
            )
            &&& json::member(lookup_value(None), "kind"@) == Some(JsonView::Text("not_found"@))
        }),
{
    reveal_strlit("kind");
    reveal_strlit("name");
    reveal_strlit("defined_at");
    assert("kind"@.len() == 4);
    assert("name"@.len() == 4);
    assert("defined_at"@.len() == 10);
    assert("kind"@[0] == 'k');
    assert("name"@[0] == 'n');
    let members = lookup_value(Some(IdeLookupView::Module { name, path }))->Object_0;
    json::law_first_member_is_found(members, 0);
    json::law_first_member_is_found(members, 1);
    json::law_first_member_is_found(members, 2);
    json::law_first_member_is_found(lookup_value(None)->Object_0, 0);
}

/// A diagnostic is answered with its level and its message, with its number exactly where it has
/// one, with its first range exactly where it has one, and with all others as related ones.
pub proof fn law_diagnostics_are_answered(diagnostic: IdeDiagnosticView, at: int)
    ensures
        ({
            let value = diagnostic_value(diagnostic);
            let ranges = diagnostic.ranges;
            &&& json::member(value, "level"@) == Some(JsonView::Text(diagnostic.level))
            &&& json::member(value, "message"@) == Some(JsonView::Text(diagnostic.message))
            &&& match diagnostic.number {
                Some(number) => json::member(value, "number"@) == Some(
                    JsonView::Integer(number as int),
                ),
                None => json::member(value, "number"@) is None,
            }
            &&& ranges.len() == 0 ==> json::member(value, "range"@) is None
            &&& ranges.len() > 0 ==> json::member(value, "range"@) == Some(range_value(ranges[0]))
            &&& match json::member(value, "related_ranges"@) {
                Some(JsonView::Array(related)) => {
                    &&& ranges.len() == 0 ==> related.len() == 0
                    &&& ranges.len() > 0 ==> related.len() == ranges.len() - 1
                    &&& 0 < at < ranges.len() ==> related[at - 1] == range_value(ranges[at])
                },
                _ => false,
            }
        }),
{
    reveal_strlit("level");
    reveal_strlit("message");
    reveal_strlit("number");
    reveal_strlit("range");
    reveal_strlit("related_ranges");
    assert("level"@.len() == 5);
    assert("message"@.len() == 7);
    assert("number"@.len() == 6);
    assert("range"@.len() == 5);
    assert("related_ranges"@.len() == 14);
    assert("level"@[0] == 'l');
    assert("range"@[0] == 'r');
    let ranges = diagnostic.ranges;
    let none = Seq::<(Seq<char>, JsonView)>::empty();
    let start = none.push(("level"@, JsonView::Text(diagnostic.level)));
    let members = start.push(("message"@, JsonView::Text(diagnostic.message)));
    assert(members =~= seq![
        ("level"@, JsonView::Text(diagnostic.level)),
        ("message"@, JsonView::Text(diagnostic.message)),
    ]);
    let first = if ranges.len() > 0 {
        Some(ranges[0])
    } else {
        None
    };
    let numbered = with_optional(members, "number"@, number_value(diagnostic.number));
    let located = with_optional(numbered, "range"@, optional_range_value(first));
    let related = range_values(
        if ranges.len() > 0 {
            ranges.skip(1)
        } else {
            Seq::empty()
        },
    );
    assert forall|key: Seq<char>| true implies (#[trigger] json::member_in(
        located.push(("related_ranges"@, related)),
        key,
    )) == (if key == "level"@ {
        Some(JsonView::Text(diagnostic.level))
    } else if key == "message"@ {
        Some(JsonView::Text(diagnostic.message))
    } else if key == "number"@ {
        number_value(diagnostic.number)
    } else if key == "range"@ {
        optional_range_value(first)
    } else if key == "related_ranges"@ {
        Some(related)
    } else {
        None
    }) by {
        json::lemma_member_in_push(none, "level"@, JsonView::Text(diagnostic.level), key);
        json::lemma_member_in_push(start, "message"@, JsonView::Text(diagnostic.message), key);
        lemma_with_optional(members, "number"@, number_value(diagnostic.number), key);
        lemma_with_optional(numbered, "range"@, optional_range_value(first), key);
        json::lemma_member_in_push(located, "related_ranges"@, related, key);
    }
    if 0 < at < ranges.len() {
        assert(ranges.skip(1)[at - 1] == ranges[at]);
    }
}

/// A session is answered with all that is known of it; the name of its client is there exactly
/// where it has one.
pub proof fn law_sessions_are_answered(info: SessionInfoView)
    ensures
        ({
            let value = info_value(info);
            &&& json::member(value, "session_id"@) == Some(JsonView::Text(info.session_id))
            &&& json::member(value, "file_path"@) == Some(JsonView::Text(info.file_path))
            &&& json::member(value, "created_at"@) == Some(JsonView::Text(info.created_at))
            &&& json::member(value, "last_activity"@) == Some(JsonView::Text(info.last_activity))
            &&& json::member(value, "idle_seconds"@) == Some(JsonView::Integer(info.idle_seconds))
            &&& match info.mcp_session_id {
                Some(client) => json::member(value, "mcp_session_id"@) == Some(
                    JsonView::Text(client),
                ),
                None => json::member(value, "mcp_session_id"@) is None,
            }
            &&& json::member(value, "marked_for_deletion"@) == Some(
                JsonView::Bool(info.marked_for_deletion),
            )
        }),
{
    reveal_strlit("session_id");
    reveal_strlit("file_path");
    reveal_strlit("created_at");
    reveal_strlit("last_activity");
    reveal_strlit("idle_seconds");
    reveal_strlit("mcp_session_id");
    reveal_strlit("marked_for_deletion");
    assert("session_id"@.len() == 10);
    assert("file_path"@.len() == 9);
    assert("created_at"@.len() == 10);
    assert("last_activity"@.len() == 13);
    assert("idle_seconds"@.len() == 12);
    assert("mcp_session_id"@.len() == 14);
    assert("marked_for_deletion"@.len() == 19);
    assert("created_at"@[0] == 'c');
    assert("session_id"@[0] == 's');
    let members = seq![
        ("session_id"@, JsonView::Text(info.session_id)),
        ("file_path"@, JsonView::Text(info.file_path)),
        ("created_at"@, JsonView::Text(info.created_at)),
        ("last_activity"@, JsonView::Text(info.last_activity)),
        ("idle_seconds"@, JsonView::Integer(info.idle_seconds)),
    ];
    json::law_first_member_is_found(members, 0);
    json::law_first_member_is_found(members, 1);
    json::law_first_member_is_found(members, 2);
    json::law_first_member_is_found(members, 3);
    json::law_first_member_is_found(members, 4);
    json::law_missing_members_are_not_found(JsonView::Object(members), "mcp_session_id"@);
    json::law_missing_members_are_not_found(JsonView::Object(members), "marked_for_deletion"@);
    let named = with_optional(members, "mcp_session_id"@, text_value(info.mcp_session_id));
    assert forall|key: Seq<char>| true implies (#[trigger] json::member_in(
        named.push(("marked_for_deletion"@, JsonView::Bool(info.marked_for_deletion))),
        key,
    )) == (if json::member_in(members, key) is Some {
        json::member_in(members, key)
    } else if key == "mcp_session_id"@ {
        text_value(info.mcp_session_id)
    } else if key == "marked_for_deletion"@ {
        Some(JsonView::Bool(info.marked_for_deletion))
    } else {
        None
    }) by {
        lemma_with_optional(members, "mcp_session_id"@, text_value(info.mcp_session_id), key);
        json::lemma_member_in_push(
            named,
            "marked_for_deletion"@,
            JsonView::Bool(info.marked_for_deletion),
            key,
        );
    }
}

/// The answer on a client's sessions counts and holds all of them, in their order.
pub proof fn law_all_sessions_are_answered(infos: Seq<SessionInfoView>, at: int)
    ensures
        json::member(sessions_value(infos), "count"@) == Some(
            JsonView::Integer(infos.len() as int),
        ),
        match json::member(sessions_value(infos), "sessions"@) {
            Some(JsonView::Array(items)) => items.len() == infos.len() && (0 <= at < infos.len()
                ==> items[at] == info_value(infos[at])),
            _ => false,
        },
{
    reveal_strlit("count");
    reveal_strlit("sessions");
    assert("count"@.len() == 5);
    assert("sessions"@.len() == 8);
    let members = sessions_value(infos)->Object_0;
    json::law_first_member_is_found(members, 0);
    json::law_first_member_is_found(members, 1);
}

/// Without a line all states of proofs are answered, in their order.
pub proof fn law_all_proof_states_are_answered(states: Seq<IdeProofStateView>, at: int)
    ensures
        json::member(proof_context_value(states, None), "count"@) == Some(
            JsonView::Integer(states.len() as int),
        ),
        match json::member(proof_context_value(states, None), "proof_states"@) {
            Some(JsonView::Array(items)) => items.len() == states.len() && (0 <= at < states.len()
                ==> items[at] == states[at].contents),
            _ => false,
        },
{
    reveal_strlit("count");
    reveal_strlit("proof_states");
    assert("count"@.len() == 5);
    assert("proof_states"@.len() == 12);
    let members = proof_context_value(states, None)->Object_0;
    json::law_first_member_is_found(members, 0);
    json::law_first_member_is_found(members, 1);
}

/// With a line the first state that begins on it is answered, and that there is none where none
/// begins on it.
pub proof fn law_the_first_proof_state_on_a_line_is_answered(
    states: Seq<IdeProofStateView>,
    line: u32,
    place: int,
)
    requires
        0 <= place <= states.len(),
        place < states.len() ==> states[place].location.beg.0 == line,
        forall|i: int| 0 <= i < place ==> (#[trigger] states[i]).location.beg.0 != line,
    ensures
        ({
            let value = proof_context_value(states, Some(line));
            &&& json::member(value, "found"@) == Some(JsonView::Bool(place < states.len()))
            &&& json::member(value, "line"@) == Some(JsonView::Integer(line as int))
            &&& json::member(value, "proof_state"@) == Some(
                if place < states.len() {
                    states[place].contents
                } else {
                    JsonView::Null
                },
            )
        }),
{
    reveal_strlit("found");
    reveal_strlit("line");
    reveal_strlit("proof_state");
    assert("found"@.len() == 5);
    assert("line"@.len() == 4);
    assert("proof_state"@.len() == 11);
    lemma_first_on_line(states, line, place);
    let members = proof_context_value(states, Some(line))->Object_0;
    json::law_first_member_is_found(members, 0);
    json::law_first_member_is_found(members, 1);
    json::law_first_member_is_found(members, 2);
}

/// `first_on_line` is the first place of its kind.
proof fn lemma_first_on_line(states: Seq<IdeProofStateView>, line: u32, place: int)
    requires
        0 <= place <= states.len(),
        place < states.len() ==> states[place].location.beg.0 == line,
        forall|i: int| 0 <= i < place ==> (#[trigger] states[i]).location.beg.0 != line,
    ensures
        first_on_line(states, line) == place,
    decreases place,
{
    if place > 0 {
        let rest = states.skip(1);
        assert(states[0].location.beg.0 != line);
        assert forall|i: int| 0 <= i < place - 1 implies (
        #[trigger] rest[i]).location.beg.0 != line by {
            assert(rest[i] == states[i + 1]);
        }
        lemma_first_on_line(rest, line, place - 1);
    }
}

/// The answer to a lookup tells of a symbol what is known of it and nothing else.
pub proof fn law_lookups_are_answered(
    found: &Option<IdeLookupResponse>,
    answer: Json,
    name: Seq<char>,
    type_info: Option<Seq<char>>,
    documentation: Option<Seq<char>>,
    defined_at: Option<FStarRangeView>,
)
    requires
        call_ensures(lookup_to_json, (found,), answer),
        process::opt_lookup(*found) == Some(
            IdeLookupView::Symbol { name, type_info, documentation, defined_at },
        ),
    ensures
        json::member(answer@, "name"@) == Some(JsonView::Text(name)),
        documentation is Some ==> json::member(answer@, "documentation"@) == Some(
            JsonView::Text(documentation->Some_0),
        ),
        type_info is Some ==> json::member(answer@, "type_info"@) == Some(
            JsonView::Text(type_info->Some_0),
        ),
        defined_at is Some ==> json::member(answer@, "defined_at"@) == Some(
            range_value(defined_at->Some_0),
        ),
        documentation is None ==> json::member(answer@, "documentation"@) is None,
        type_info is None ==> json::member(answer@, "type_info"@) is None,
        defined_at is None ==> json::member(answer@, "defined_at"@) is None,
{
    law_symbols_are_answered(name, type_info, documentation, defined_at);
}

} // verus!
