//! Messages of the F* IDE protocol: one JSON document on each line.
use crate::fstar::messages::{
    self, FStarRange, FStarRangeView, IdeProofState, IdeProofStateView, IdeResponseBase,
    IdeResponseView, ProtocolInfo, ProtocolInfoView,
};
use crate::json::{self, Json, JsonView};
use crate::text;
use vstd::prelude::*;

verus! {

/// A message from the F* process.
#[derive(Debug)]
pub enum FStarResponse {
    /// What the process says of itself when it starts.
    ProtocolInfo(ProtocolInfo),
    /// The answer to a query.
    Response(IdeResponseBase),
    /// Progress of the check of a buffer.
    Progress { query_id: String, stage: String, ranges: Option<FStarRange> },
    /// The state of a proof.
    ProofState { query_id: String, proof_state: IdeProofState },
    /// An error, a warning or a note.
    StatusMessage { query_id: String, level: String, contents: String },
}

/// The model of a message.
pub enum FStarResponseView {
    ProtocolInfo(ProtocolInfoView),
    Response(IdeResponseView),
    Progress { query_id: Seq<char>, stage: Seq<char>, ranges: Option<FStarRangeView> },
    ProofState { query_id: Seq<char>, proof_state: IdeProofStateView },
    StatusMessage { query_id: Seq<char>, level: Seq<char>, contents: Seq<char> },
}

impl View for FStarResponse {
    type V = FStarResponseView;

    open spec fn view(&self) -> FStarResponseView {
        match *self {
            FStarResponse::ProtocolInfo(info) => FStarResponseView::ProtocolInfo(info@),
            FStarResponse::Response(answer) => FStarResponseView::Response(answer@),
            FStarResponse::Progress { query_id, stage, ranges } => FStarResponseView::Progress {
                query_id: query_id@,
                stage: stage@,
                ranges: messages::opt_range(ranges),
            },
            FStarResponse::ProofState { query_id, proof_state } => FStarResponseView::ProofState {
                query_id: query_id@,
                proof_state: proof_state@,
            },
            FStarResponse::StatusMessage {
                query_id,
                level,
                contents,
            } => FStarResponseView::StatusMessage {
                query_id: query_id@,
                level: level@,
                contents: contents@,
            },
        }
    }
}

/// Why a line is no message.
#[derive(Debug)]
pub enum ResponseError {
    /// It is no JSON document; the text says why.
    InvalidJson(String),
    /// It lacks what its kind of message has to hold.
    InvalidMessage,
}

/// The model of why a line is no message.
pub enum ResponseFault {
    InvalidJson(Seq<char>),
    InvalidMessage,
}

impl View for ResponseError {
    type V = ResponseFault;

    open spec fn view(&self) -> ResponseFault {
        match *self {
            ResponseError::InvalidJson(reason) => ResponseFault::InvalidJson(reason@),
            ResponseError::InvalidMessage => ResponseFault::InvalidMessage,
        }
    }
}

/// The value under `contents`, null where there is none.
pub open spec fn contents_of(value: JsonView) -> JsonView {
    match json::member(value, "contents"@) {
        Some(contents) => contents,
        None => JsonView::Null,
    }
}

/// The message of a document that is taken for an answer.
pub open spec fn answer_message(value: JsonView) -> Option<FStarResponseView> {
    match messages::answer_in(value) {
        Some(answer) => Some(FStarResponseView::Response(answer)),
        None => None,
    }
}

/// The message that a document holds. What is neither the protocol information nor a message of a
/// known level is taken for an answer.
pub open spec fn message_in(value: JsonView) -> Option<FStarResponseView> {
    let query_id = json::string_member_or_empty(value, "query-id"@);
    let level = json::string_member_or_empty(value, "level"@);
    if messages::is_protocol_info(value) {
        match messages::protocol_info_in(value) {
            Some(info) => Some(FStarResponseView::ProtocolInfo(info)),
            None => None,
        }
    } else if json::string_member(value, "kind"@) != Some("message"@) {
        answer_message(value)
    } else if level == "progress"@ {
        Some(
            FStarResponseView::Progress {
                query_id,
                stage: json::string_member_or_empty(contents_of(value), "stage"@),
                ranges: match json::member(contents_of(value), "ranges"@) {
                    Some(range) => messages::range_in(range),
                    None => None,
                },
            },
        )
    } else if level == "proof-state"@ {
        match messages::proof_state_in(contents_of(value)) {
            Some(proof_state) => Some(FStarResponseView::ProofState { query_id, proof_state }),
            None => None,
        }
    } else if level == "error"@ || level == "warning"@ || level == "info"@ {
        Some(
            FStarResponseView::StatusMessage {
                query_id,
                level,
                contents: json::string_member_or_empty(value, "contents"@),
            },
        )
    } else {
        answer_message(value)
    }
}

/// The message that a line holds.
pub open spec fn message_on(line: Seq<char>) -> Result<FStarResponseView, ResponseFault> {
    match json::document(line) {
        Err(reason) => Err(ResponseFault::InvalidJson(reason)),
        Ok(value) => match message_in(value) {
            Some(message) => Ok(message),
            None => Err(ResponseFault::InvalidMessage),
        },
    }
}

/// The model of the outcome of reading a line.
pub open spec fn response_outcome(result: Result<FStarResponse, ResponseError>) -> Result<
    FStarResponseView,
    ResponseFault,
> {
    match result {
        Ok(response) => Ok(response@),
        Err(error) => Err(error@),
    }
}

/// Reads an answer from a document.
fn read_answer(value: Json) -> (result: Result<FStarResponse, ResponseError>)
    ensures
        match result {
            Ok(response) => answer_message(value@) == Some(response@),
            Err(error) => answer_message(value@) is None && error@ is InvalidMessage,
        },
{
    match IdeResponseBase::decode(value) {
        Some(answer) => Ok(FStarResponse::Response(answer)),
        None => Err(ResponseError::InvalidMessage),
    }
}

/// The value under `contents`, null where there is none.
fn take_contents(value: Json) -> (contents: Json)
    ensures
        contents@ == contents_of(value@),
{
    match value.take("contents") {
        Some(contents) => contents,
        None => Json::Null,
    }
}

/// Reads a message from a document.
pub fn decode_response(value: Json) -> (result: Result<FStarResponse, ResponseError>)
    ensures
        match result {
            Ok(response) => message_in(value@) == Some(response@),
            Err(error) => message_in(value@) is None && error@ is InvalidMessage,
        },
{
    if ProtocolInfo::is_protocol_info(&value) {
        return match ProtocolInfo::decode(&value) {
            Some(info) => Ok(FStarResponse::ProtocolInfo(info)),
            None => Err(ResponseError::InvalidMessage),
        };
    }
    let is_message = match value.string_member("kind") {
        Some(kind) => text::same(kind.as_str(), "message"),
        None => false,
    };
    if !is_message {
        return read_answer(value);
    }
    let query_id = value.string_member_or_empty("query-id");
    let level = value.string_member_or_empty("level");
    if text::same(level.as_str(), "progress") {
        let contents = take_contents(value);
        let stage = contents.string_member_or_empty("stage");
        let ranges = match contents.get("ranges") {
            Some(range) => messages::decode_range(range),
            None => None,
        };
        Ok(FStarResponse::Progress { query_id, stage, ranges })
    } else if text::same(level.as_str(), "proof-state") {
        match messages::decode_proof_state(take_contents(value)) {
            Some(proof_state) => Ok(FStarResponse::ProofState { query_id, proof_state }),
            None => Err(ResponseError::InvalidMessage),
        }
    } else if text::same(level.as_str(), "error") || text::same(level.as_str(), "warning")
        || text::same(level.as_str(), "info") {
        let contents = value.string_member_or_empty("contents");
        Ok(FStarResponse::StatusMessage { query_id, level, contents })
    } else {
        read_answer(value)
    }
}

/// Reads a message from a line.
pub fn parse_response(line: &str) -> (result: Result<FStarResponse, ResponseError>)
    ensures
        response_outcome(result) == message_on(line@),
{
    match json::parse(line) {
        Ok(value) => decode_response(value),
        Err(reason) => Err(ResponseError::InvalidJson(reason)),
    }
}

/// What a line of the process's output holds: nothing where it is blank or no message.
pub fn read_output_line(line: &str) -> (response: Option<FStarResponse>)
    ensures
        match response {
            Some(found) => text::trimmed(line@).len() > 0 && message_on(text::trimmed(line@))
                == Ok::<FStarResponseView, ResponseFault>(found@),
            None => text::trimmed(line@).len() == 0 || message_on(text::trimmed(line@)) is Err,
        },
{
    let trimmed = text::trim(line);
    if trimmed.as_str().is_empty() {
        return None;
    }
    match parse_response(trimmed.as_str()) {
        Ok(response) => Some(response),
        Err(_) => None,
    }
}

/// The line for a message: its compact text and a line feed, which is the only one.
pub fn message_line(message: Json) -> (line: String)
    ensures
        line@ == json::json_text(json::canonical(message@)).push('\n'),
        forall|i: int| 0 <= i < line@.len() - 1 ==> line@[i] != '\n',
{
    let mut line = json::to_text(message);
    let ghost body = line@;
    line.push('\n');
    assert forall|i: int| 0 <= i < line@.len() - 1 implies line@[i] != '\n' by {
        assert(body.contains(body[i]));
    }
    line
}

/// A value that is a position.
pub open spec fn position_value(line: u32, column: u32) -> JsonView {
    JsonView::Object(
        seq![
            ("line"@, JsonView::Integer(line as int)),
            ("column"@, JsonView::Integer(column as int)),
        ],
    )
}

/// A query with its arguments.
pub open spec fn query_value(name: Seq<char>, arguments: Seq<(Seq<char>, JsonView)>) -> JsonView {
    JsonView::Object(
        seq![("query"@, JsonView::Text(name)), ("args"@, JsonView::Object(arguments))],
    )
}

/// True for what can be sent as a query: an object, or null, which stands for an empty one.
pub open spec fn is_query(query: JsonView) -> bool {
    query is Object || query is Null
}

/// A query under its identifier, which takes the place of one that is there.
pub open spec fn identified(query: JsonView, query_id: Seq<char>) -> JsonView {
    let members = match query {
        JsonView::Object(members) => members,
        _ => Seq::empty(),
    };
    JsonView::Object(json::with_member(members, "query-id"@, JsonView::Text(query_id)))
}

/// The query for a check of a buffer.
pub open spec fn full_buffer_value(
    code: Seq<char>,
    kind: Seq<char>,
    to_position: Option<(u32, u32)>,
) -> JsonView {
    let arguments = seq![
        ("kind"@, JsonView::Text(kind)),
        ("with-symbols"@, JsonView::Bool(false)),
        ("code"@, JsonView::Text(code)),
        ("line"@, JsonView::Integer(0)),
        ("column"@, JsonView::Integer(0)),
    ];
    query_value(
        "full-buffer"@,
        match to_position {
            Some((line, column)) => arguments.push(("to-position"@, position_value(line, column))),
            None => arguments,
        },
    )
}

/// The query that cancels from a position on.
pub open spec fn cancel_value(query_id: Seq<char>, position: (u32, u32)) -> JsonView {
    JsonView::Object(
        seq![
            ("query-id"@, JsonView::Text(query_id)),
            ("query"@, JsonView::Text("cancel"@)),
            (
                "args"@,
                JsonView::Object(
                    seq![
                        ("cancel-line"@, JsonView::Integer(position.0 as int)),
                        ("cancel-column"@, JsonView::Integer(position.1 as int)),
                    ],
                ),
            ),
        ],
    )
}

/// The query that adds a file to the virtual file system.
pub open spec fn vfs_add_value(filename: Option<Seq<char>>, contents: Seq<char>) -> JsonView {
    query_value(
        "vfs-add"@,
        seq![
            (
                "filename"@,
                match filename {
                    Some(name) => JsonView::Text(name),
                    None => JsonView::Null,
                },
            ),
            ("contents"@, JsonView::Text(contents)),
        ],
    )
}

/// The query that looks up a symbol.
pub open spec fn lookup_value(
    filename: Seq<char>,
    line: u32,
    column: u32,
    symbol: Seq<char>,
) -> JsonView {
    query_value(
        "lookup"@,
        seq![
            ("context"@, JsonView::Text("code"@)),
            ("symbol"@, JsonView::Text(symbol)),
            (
                "requested-info"@,
                JsonView::Array(
                    seq![
                        JsonView::Text("type"@),
                        JsonView::Text("documentation"@),
                        JsonView::Text("defined-at"@),
                    ],
                ),
            ),
            (
                "location"@,
                JsonView::Object(
                    seq![
                        ("filename"@, JsonView::Text(filename)),
                        ("line"@, JsonView::Integer(line as int)),
                        ("column"@, JsonView::Integer(column as int)),
                    ],
                ),
            ),
        ],
    )
}

/// The query that restarts the solver.
pub open spec fn restart_solver_value() -> JsonView {
    query_value("restart-solver"@, Seq::empty())
}

/// A query with its arguments.
fn query(name: &str, arguments: Vec<(String, Json)>) -> (query: Json)
    ensures
        query@ == query_value(name@, json::members_view(arguments@)),
{
    let mut members: Vec<(String, Json)> = Vec::new();
    json::put(&mut members, "query", json::text(name));
    json::put(&mut members, "args", json::object(arguments));
    let query = json::object(members);
    assert(query@->Object_0 =~= query_value(name@, json::members_view(arguments@))->Object_0);
    query
}

/// A query under its identifier.
pub fn identify(query: Json, query_id: &str) -> (message: Json)
    requires
        is_query(query@),
    ensures
        message@ == identified(query@, query_id@),
{
    let mut members: Vec<(String, Json)> = match query {
        Json::Object(list) => list,
        _ => Vec::new(),
    };
    assert(json::members_view(members@) =~= match query@ {
        JsonView::Object(list) => list,
        _ => Seq::empty(),
    });
    json::set(&mut members, "query-id", json::text(query_id));
    json::object(members)
}

/// The query for a check of a buffer.
pub fn full_buffer_query(code: &str, kind: &str, to_position: Option<(u32, u32)>) -> (message: Json)
    ensures
        message@ == full_buffer_value(code@, kind@, to_position),
{
    let mut arguments: Vec<(String, Json)> = Vec::new();
    json::put(&mut arguments, "kind", json::text(kind));
    json::put(&mut arguments, "with-symbols", Json::Bool(false));
    json::put(&mut arguments, "code", json::text(code));
    json::put(&mut arguments, "line", Json::Integer(0));
    json::put(&mut arguments, "column", Json::Integer(0));
    match to_position {
        Some((line, column)) => {
            let mut position: Vec<(String, Json)> = Vec::new();
            json::put(&mut position, "line", Json::Integer(line as i128));
            json::put(&mut position, "column", Json::Integer(column as i128));
            let value = json::object(position);
            assert(value@->Object_0 =~= position_value(line, column)->Object_0);
            json::put(&mut arguments, "to-position", value);
        },
        None => {},
    }
    let message = query("full-buffer", arguments);
    assert(json::members_view(arguments@) =~= full_buffer_value(
        code@,
        kind@,
        to_position,
    )->Object_0[1].1->Object_0);
    message
}

/// The query that cancels from a position on.
pub fn cancel_query(query_id: &str, position: (u32, u32)) -> (message: Json)
    ensures
        message@ == cancel_value(query_id@, position),
{
    let mut arguments: Vec<(String, Json)> = Vec::new();
    json::put(&mut arguments, "cancel-line", Json::Integer(position.0 as i128));
    json::put(&mut arguments, "cancel-column", Json::Integer(position.1 as i128));
    let mut members: Vec<(String, Json)> = Vec::new();
    json::put(&mut members, "query-id", json::text(query_id));
    json::put(&mut members, "query", json::text("cancel"));
    json::put(&mut members, "args", json::object(arguments));
    let message = json::object(members);
    assert(json::members_view(arguments@) =~= cancel_value(
        query_id@,
        position,
    )->Object_0[2].1->Object_0);
    assert(message@->Object_0 =~= cancel_value(query_id@, position)->Object_0);
    message
}

/// The query that adds a file to the virtual file system.
pub fn vfs_add_query(filename: Option<&str>, contents: &str) -> (message: Json)
    ensures
        message@ == vfs_add_value(text::opt_str_text(filename), contents@),
{
    let mut arguments: Vec<(String, Json)> = Vec::new();
    let name = match filename {
        Some(name) => json::text(name),
        None => Json::Null,
    };
    json::put(&mut arguments, "filename", name);
    json::put(&mut arguments, "contents", json::text(contents));
    let message = query("vfs-add", arguments);
    assert(json::members_view(arguments@) =~= vfs_add_value(
        text::opt_str_text(filename),
        contents@,
    )->Object_0[1].1->Object_0);
    message
}

/// The query that looks up a symbol.
pub fn lookup_query(filename: &str, line: u32, column: u32, symbol: &str) -> (message: Json)
    ensures
        message@ == lookup_value(filename@, line, column, symbol@),
{
    let mut requested: Vec<Json> = Vec::new();
    requested.push(json::text("type"));
    requested.push(json::text("documentation"));
    requested.push(json::text("defined-at"));
    let mut location: Vec<(String, Json)> = Vec::new();
    json::put(&mut location, "filename", json::text(filename));
    json::put(&mut location, "line", Json::Integer(line as i128));
    json::put(&mut location, "column", Json::Integer(column as i128));
    let ghost expected = lookup_value(filename@, line, column, symbol@)->Object_0[1].1->Object_0;
    assert(json::items_view(requested@) =~= expected[2].1->Array_0);
    assert(json::members_view(location@) =~= expected[3].1->Object_0);
    let mut arguments: Vec<(String, Json)> = Vec::new();
    json::put(&mut arguments, "context", json::text("code"));
    json::put(&mut arguments, "symbol", json::text(symbol));
    json::put(&mut arguments, "requested-info", json::array(requested));
    json::put(&mut arguments, "location", json::object(location));
    let message = query("lookup", arguments);
    assert(json::members_view(arguments@) =~= expected);
    message
}

/// The query that restarts the solver.
pub fn restart_solver_query() -> (message: Json)
    ensures
        message@ == restart_solver_value(),
{
    let arguments: Vec<(String, Json)> = Vec::new();
    assert(json::members_view(arguments@) =~= Seq::empty());
    query("restart-solver", arguments)
}

/// A progress message is read from its identifier, its stage and its range; a range that is missing
/// or cannot be read counts as none.
pub proof fn law_progress_is_read(
    value: JsonView,
    contents: JsonView,
    query_id: Seq<char>,
    stage: Seq<char>,
)
    requires
        json::member(value, "kind"@) == Some(JsonView::Text("message"@)),
        json::member(value, "level"@) == Some(JsonView::Text("progress"@)),
        json::member(value, "query-id"@) == Some(JsonView::Text(query_id)),
        json::member(value, "contents"@) == Some(contents),
        json::member(contents, "stage"@) == Some(JsonView::Text(stage)),
    ensures
        match message_in(value) {
            Some(FStarResponseView::Progress { query_id: id, stage: found, ranges }) => {
                &&& id == query_id
                &&& found == stage
                &&& match json::member(contents, "ranges"@) {
                    Some(range) => ranges == messages::range_in(range),
                    None => ranges is None,
                }
            },
            _ => false,
        },
{
    reveal_strlit("message");
    reveal_strlit("protocol-info");
    assert("message"@.len() == 7);
    assert("protocol-info"@.len() == 13);
    reveal_strlit("progress");
    reveal_strlit("proof-state");
    reveal_strlit("error");
    reveal_strlit("warning");
    reveal_strlit("info");
    assert("progress"@.len() == 8);
    assert("proof-state"@.len() == 11);
    assert("error"@.len() == 5);
    assert("warning"@.len() == 7);
    assert("info"@.len() == 4);
}

/// The state of a proof is read from its identifier and its contents.
pub proof fn law_proof_state_messages_are_read(
    value: JsonView,
    contents: JsonView,
    query_id: Seq<char>,
)
    requires
        json::member(value, "kind"@) == Some(JsonView::Text("message"@)),
        json::member(value, "level"@) == Some(JsonView::Text("proof-state"@)),
        json::member(value, "query-id"@) == Some(JsonView::Text(query_id)),
        json::member(value, "contents"@) == Some(contents),
    ensures
        match messages::proof_state_in(contents) {
            Some(proof_state) => message_in(value) == Some(
                FStarResponseView::ProofState { query_id, proof_state },
            ),
            None => message_in(value) is None,
        },
{
    reveal_strlit("message");
    reveal_strlit("protocol-info");
    assert("message"@.len() == 7);
    assert("protocol-info"@.len() == 13);
    reveal_strlit("progress");
    reveal_strlit("proof-state");
    reveal_strlit("error");
    reveal_strlit("warning");
    reveal_strlit("info");
    assert("progress"@.len() == 8);
    assert("proof-state"@.len() == 11);
    assert("error"@.len() == 5);
    assert("warning"@.len() == 7);
    assert("info"@.len() == 4);
}

/// An error, a warning or an information is read from its identifier and its text.
pub proof fn law_status_messages_are_read(
    value: JsonView,
    level: Seq<char>,
    query_id: Seq<char>,
    contents: Seq<char>,
)
    requires
        level == "error"@ || level == "warning"@ || level == "info"@,
        json::member(value, "kind"@) == Some(JsonView::Text("message"@)),
        json::member(value, "level"@) == Some(JsonView::Text(level)),
        json::member(value, "query-id"@) == Some(JsonView::Text(query_id)),
        json::member(value, "contents"@) == Some(JsonView::Text(contents)),
    ensures
        message_in(value) == Some(FStarResponseView::StatusMessage { query_id, level, contents }),
{
    reveal_strlit("message");
    reveal_strlit("protocol-info");
    assert("message"@.len() == 7);
    assert("protocol-info"@.len() == 13);
    reveal_strlit("progress");
    reveal_strlit("proof-state");
    reveal_strlit("error");
    reveal_strlit("warning");
    reveal_strlit("info");
    assert("progress"@.len() == 8);
    assert("proof-state"@.len() == 11);
    assert("error"@.len() == 5);
    assert("warning"@.len() == 7);
    assert("info"@.len() == 4);
}

/// What is no message, or a message of another level, is an answer where it can be read as one; the
/// protocol information is told from both.
pub proof fn law_other_documents_are_answers(value: JsonView, kind: Seq<char>, level: Seq<char>)
    ensures
        json::member(value, "kind"@) == Some(JsonView::Text(kind)) && kind != "message"@ && kind
            != "protocol-info"@ || json::member(value, "kind"@) is None ==> match messages::answer_in(
            value,
        ) {
            Some(answer) => message_in(value) == Some(FStarResponseView::Response(answer)),
            None => message_in(value) is None,
        },
        json::member(value, "kind"@) == Some(JsonView::Text("message"@)) && json::member(
            value,
            "level"@,
        ) == Some(JsonView::Text(level)) && level != "progress"@ && level != "proof-state"@ && level
            != "error"@ && level != "warning"@ && level != "info"@ ==> match messages::answer_in(
            value,
        ) {
            Some(answer) => message_in(value) == Some(FStarResponseView::Response(answer)),
            None => message_in(value) is None,
        },
        json::member(value, "kind"@) == Some(JsonView::Text("protocol-info"@)) ==> match (
        messages::protocol_info_in(value)) {
            Some(info) => message_in(value) == Some(FStarResponseView::ProtocolInfo(info)),
            None => message_in(value) is None,
        },
{
    reveal_strlit("message");
    reveal_strlit("protocol-info");
    assert("message"@.len() == 7);
    assert("protocol-info"@.len() == 13);
    reveal_strlit("progress");
    reveal_strlit("proof-state");
    reveal_strlit("error");
    reveal_strlit("warning");
    reveal_strlit("info");
    reveal_strlit("level");
    assert("progress"@.len() == 8);
    assert("proof-state"@.len() == 11);
    assert("error"@.len() == 5);
    assert("warning"@.len() == 7);
    assert("info"@.len() == 4);
    assert("level"@.len() == 5);
    assert("error"@[0] == 'e');
    assert("level"@[0] == 'l');
    if json::member(value, "kind"@) == Some(JsonView::Text("message"@)) {
        assert(json::string_member_or_empty(value, "level"@) == level || json::member(
            value,
            "level"@,
        ) != Some(JsonView::Text(level)));
    }
}

/// A line is a message where it is a document that holds one; else the reason says whether it is
/// no document.
pub proof fn law_lines_are_read_as_documents(line: Seq<char>)
    ensures
        match json::document(line) {
            Ok(value) => match message_in(value) {
                Some(message) => message_on(line) == Ok::<FStarResponseView, ResponseFault>(
                    message,
                ),
                None => message_on(line) == Err::<FStarResponseView, ResponseFault>(
                    ResponseFault::InvalidMessage,
                ),
            },
            Err(reason) => message_on(line) == Err::<FStarResponseView, ResponseFault>(
                ResponseFault::InvalidJson(reason),
            ),
        },
{
}

/// A query carries the identifier that it is given, and keeps all else that it holds.
pub proof fn law_queries_carry_their_identifier(query: JsonView, query_id: Seq<char>, key: Seq<char>)
    requires
        query is Object || query is Null,
    ensures
        json::member(identified(query, query_id), "query-id"@) == Some(JsonView::Text(query_id)),
        key != "query-id"@ ==> json::member(identified(query, query_id), key) == json::member(
            query,
            key,
        ),
{
    let members = match query {
        JsonView::Object(members) => members,
        _ => Seq::empty(),
    };
    json::law_setting_a_member_changes_no_other(
        members,
        "query-id"@,
        JsonView::Text(query_id),
        key,
    );
}

/// The arguments of a query are found under its name.
proof fn lemma_query_members(name: Seq<char>, arguments: Seq<(Seq<char>, JsonView)>)
    ensures
        json::member(query_value(name, arguments), "query"@) == Some(JsonView::Text(name)),
        json::member(query_value(name, arguments), "args"@) == Some(JsonView::Object(arguments)),
{
    reveal_strlit("query");
    reveal_strlit("args");
    assert("query"@.len() == 5);
    assert("args"@.len() == 4);
    let members = query_value(name, arguments)->Object_0;
    json::law_first_member_is_found(members, 0);
    json::law_first_member_is_found(members, 1);
}

/// The query for a check sends the whole buffer under the kind that is asked for, without symbols,
/// from the start of the file, and up to a position exactly where one is given.
pub proof fn law_checks_send_the_buffer(
    code: Seq<char>,
    kind: Seq<char>,
    to_position: Option<(u32, u32)>,
)
    ensures
        ({
            let value = full_buffer_value(code, kind, to_position);
            &&& json::member(value, "query"@) == Some(JsonView::Text("full-buffer"@))
            &&& match json::member(value, "args"@) {
                Some(arguments) => {
                    &&& json::member(arguments, "kind"@) == Some(JsonView::Text(kind))
                    &&& json::member(arguments, "code"@) == Some(JsonView::Text(code))
                    &&& json::member(arguments, "with-symbols"@) == Some(JsonView::Bool(false))
                    &&& json::member(arguments, "line"@) == Some(JsonView::Integer(0))
                    &&& json::member(arguments, "column"@) == Some(JsonView::Integer(0))
                    &&& match to_position {
                        Some((line, column)) => match json::member(arguments, "to-position"@) {
                            Some(position) => {
                                &&& json::member(position, "line"@) == Some(
                                    JsonView::Integer(line as int),
                                )
                                &&& json::member(position, "column"@) == Some(
                                    JsonView::Integer(column as int),
                                )
                            },
                            None => false,
                        },
                        None => json::member(arguments, "to-position"@) is None,
                    }
                },
                None => false,
            }
        }),
{
    reveal_strlit("kind");
    reveal_strlit("with-symbols");
    reveal_strlit("code");
    reveal_strlit("line");
    reveal_strlit("column");
    reveal_strlit("to-position");
    assert("kind"@.len() == 4);
    assert("with-symbols"@.len() == 12);
    assert("code"@.len() == 4);
    assert("line"@.len() == 4);
    assert("column"@.len() == 6);
    assert("to-position"@.len() == 11);
    assert("code"@[0] == 'c');
    assert("kind"@[0] == 'k');
    assert("line"@[0] == 'l');
    let arguments = full_buffer_value(code, kind, to_position)->Object_0[1].1->Object_0;
    lemma_query_members("full-buffer"@, arguments);
    assert(full_buffer_value(code, kind, to_position) == query_value("full-buffer"@, arguments));
    json::law_first_member_is_found(arguments, 0);
    json::law_first_member_is_found(arguments, 1);
    json::law_first_member_is_found(arguments, 2);
    json::law_first_member_is_found(arguments, 3);
    json::law_first_member_is_found(arguments, 4);
    match to_position {
        Some((line, column)) => {
            json::law_first_member_is_found(arguments, 5);
            let members = position_value(line, column)->Object_0;
            json::law_first_member_is_found(members, 0);
            json::law_first_member_is_found(members, 1);
        },
        None => json::law_missing_members_are_not_found(
            JsonView::Object(arguments),
            "to-position"@,
        ),
    }
}

/// A cancellation names its position.
pub proof fn law_cancellations_name_their_position(query_id: Seq<char>, position: (u32, u32))
    ensures
        ({
            let value = cancel_value(query_id, position);
            &&& json::member(value, "query-id"@) == Some(JsonView::Text(query_id))
            &&& json::member(value, "query"@) == Some(JsonView::Text("cancel"@))
            &&& match json::member(value, "args"@) {
                Some(arguments) => json::member(arguments, "cancel-line"@) == Some(
                    JsonView::Integer(position.0 as int),
                ) && json::member(arguments, "cancel-column"@) == Some(
                    JsonView::Integer(position.1 as int),
                ),
                None => false,
            }
        }),
{
    reveal_strlit("query-id");
    reveal_strlit("query");
    reveal_strlit("args");
    reveal_strlit("cancel-line");
    reveal_strlit("cancel-column");
    assert("query-id"@.len() == 8);
    assert("query"@.len() == 5);
    assert("args"@.len() == 4);
    assert("cancel-line"@.len() == 11);
    assert("cancel-column"@.len() == 13);
    let members = cancel_value(query_id, position)->Object_0;
    json::law_first_member_is_found(members, 0);
    json::law_first_member_is_found(members, 1);
    json::law_first_member_is_found(members, 2);
    let arguments = members[2].1->Object_0;
    json::law_first_member_is_found(arguments, 0);
    json::law_first_member_is_found(arguments, 1);
}

/// An addition to the virtual file system names the file, or none, and sends its contents.
pub proof fn law_added_files_are_sent(filename: Option<Seq<char>>, contents: Seq<char>)
    ensures
        ({
            let value = vfs_add_value(filename, contents);
            &&& json::member(value, "query"@) == Some(JsonView::Text("vfs-add"@))
            &&& match json::member(value, "args"@) {
                Some(arguments) => {
                    &&& json::member(arguments, "contents"@) == Some(JsonView::Text(contents))
                    &&& match filename {
                        Some(name) => json::member(arguments, "filename"@) == Some(
                            JsonView::Text(name),
                        ),
                        None => json::member(arguments, "filename"@) == Some(JsonView::Null),
                    }
                },
                None => false,
            }
        }),
{
    reveal_strlit("filename");
    reveal_strlit("contents");
    assert("filename"@.len() == 8);
    assert("contents"@.len() == 8);
    assert("contents"@[0] == 'c');
    assert("filename"@[0] == 'f');
    let arguments = vfs_add_value(filename, contents)->Object_0[1].1->Object_0;
    lemma_query_members("vfs-add"@, arguments);
    json::law_first_member_is_found(arguments, 0);
    json::law_first_member_is_found(arguments, 1);
}

/// A lookup asks for the type, the documentation and the definition of its symbol at its place.
pub proof fn law_lookups_name_symbol_and_place(
    filename: Seq<char>,
    line: u32,
    column: u32,
    symbol: Seq<char>,
)
    ensures
        ({
            let value = lookup_value(filename, line, column, symbol);
            &&& json::member(value, "query"@) == Some(JsonView::Text("lookup"@))
            &&& match json::member(value, "args"@) {
                Some(arguments) => {
                    &&& json::member(arguments, "context"@) == Some(JsonView::Text("code"@))
                    &&& json::member(arguments, "symbol"@) == Some(JsonView::Text(symbol))
                    &&& match json::member(arguments, "requested-info"@) {
                        Some(JsonView::Array(wanted)) => {
                            &&& wanted.contains(JsonView::Text("type"@))
                            &&& wanted.contains(JsonView::Text("documentation"@))
                            &&& wanted.contains(JsonView::Text("defined-at"@))
                        },
                        _ => false,
                    }
                    &&& match json::member(arguments, "location"@) {
                        Some(place) => {
                            &&& json::member(place, "filename"@) == Some(JsonView::Text(filename))
                            &&& json::member(place, "line"@) == Some(
                                JsonView::Integer(line as int),
                            )
                            &&& json::member(place, "column"@) == Some(
                                JsonView::Integer(column as int),
                            )
                        },
                        None => false,
                    }
                },
                None => false,
            }
        }),
{
    reveal_strlit("context");
    reveal_strlit("symbol");
    reveal_strlit("requested-info");
    reveal_strlit("location");
    reveal_strlit("filename");
    reveal_strlit("line");
    reveal_strlit("column");
    assert("context"@.len() == 7);
    assert("symbol"@.len() == 6);
    assert("requested-info"@.len() == 14);
    assert("location"@.len() == 8);
    assert("filename"@.len() == 8);
    assert("line"@.len() == 4);
    assert("column"@.len() == 6);
    assert("column"@[0] == 'c');
    assert("symbol"@[0] == 's');
    assert("filename"@[0] == 'f');
    assert("location"@[0] == 'l');
    let arguments = lookup_value(filename, line, column, symbol)->Object_0[1].1->Object_0;
    lemma_query_members("lookup"@, arguments);
    json::law_first_member_is_found(arguments, 0);
    json::law_first_member_is_found(arguments, 1);
    json::law_first_member_is_found(arguments, 2);
    json::law_first_member_is_found(arguments, 3);
    let place = arguments[3].1->Object_0;
    json::law_first_member_is_found(place, 0);
    json::law_first_member_is_found(place, 1);
    json::law_first_member_is_found(place, 2);
    let wanted = arguments[2].1->Array_0;
    assert(wanted[0] == JsonView::Text("type"@));
    assert(wanted[1] == JsonView::Text("documentation"@));
    assert(wanted[2] == JsonView::Text("defined-at"@));
}

/// A restart of the solver is asked for by its name.
pub proof fn law_restarts_are_asked_for()
    ensures
        json::member(restart_solver_value(), "query"@) == Some(JsonView::Text("restart-solver"@)),
{
    lemma_query_members("restart-solver"@, Seq::empty());
}

/// A line of output is read without the space around it; one that holds nothing else, or nothing
/// that can be read, gives nothing. A message goes out as one line.
pub proof fn law_output_is_read_line_by_line(
    line: &str,
    response: Option<FStarResponse>,
    message: Json,
    sent: String,
)
    requires
        call_ensures(read_output_line, (line,), response),
        call_ensures(message_line, (message,), sent),
    ensures
        text::trimmed(line@).len() == 0 ==> response is None,
        text::trimmed(line@).len() > 0 ==> match message_on(text::trimmed(line@)) {
            Ok(found) => response is Some && response->Some_0@ == found,
            Err(_) => response is None,
        },
        sent@.len() > 0 && sent@[sent@.len() - 1] == '\n',
        forall|i: int| 0 <= i < sent@.len() - 1 ==> #[trigger] sent@[i] != '\n',
{
}

} // verus!
