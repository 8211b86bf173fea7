//! The tools of the server: what each does with its arguments, and what it answers.
use crate::fstar::config::{FStarConfig, FStarConfigView};
use crate::fstar::messages::{self, IdeDiagnostic, IdeDiagnosticView, IdeLookupResponse, IdeProofState};
use crate::fstar::process::{self, FragmentResult, FullBufferView};
use crate::json::{self, Json, JsonView};
use crate::locations::{self, Style};
use crate::mcp::project;
use crate::mcp::replies;
use crate::session::digest;
use crate::session::error::{self, SessionError, SessionErrorView};
use crate::session::identifier;
use crate::session::manager::{
    self, ManagerView, SessionInfo, SessionManager, SessionRecord, DEFAULT_QUERY_TIMEOUT_SECS,
};
use crate::session::state::{self, Session, SessionCheckResult, SessionCheckView, SessionView};
use crate::text;
use vstd::prelude::*;

verus! {

/// How many diagnostics the check of a file reports.
pub const MAX_DIAGNOSTICS: usize = 20;

/// How many diagnostics the check of a project reports for each file.
pub const MAX_PROJECT_DIAGNOSTICS: usize = 10;

/// Warms a session without a check.
#[derive(Debug)]
pub struct CreateSessionTool;

/// Checks a file.
#[derive(Debug)]
pub struct TypecheckBufferTool;

/// Adds a file to the virtual file systems of a session.
#[derive(Debug)]
pub struct UpdateBufferTool;

/// Looks up a symbol.
#[derive(Debug)]
pub struct LookupSymbolTool;

/// Restarts the solvers of a session.
#[derive(Debug)]
pub struct RestartSolverTool;

/// Closes a session.
#[derive(Debug)]
pub struct CloseSessionTool;

/// Lists the sessions of the client.
#[derive(Debug)]
pub struct ListSessionsTool;

/// Shows proof states.
#[derive(Debug)]
pub struct GetProofContextTool;

/// Shows fragments.
#[derive(Debug)]
pub struct GetStatusTool;

/// Checks the files of a project.
#[derive(Debug)]
pub struct CheckProjectTool;

/// By what a tool is told its session.
#[derive(Debug)]
pub enum SessionTarget {
    Identifier(String),
    FilePath(String),
}

/// The model of by what a tool is told its session.
pub enum SessionTargetView {
    Identifier(Seq<char>),
    FilePath(Seq<char>),
}

impl View for SessionTarget {
    type V = SessionTargetView;

    open spec fn view(&self) -> SessionTargetView {
        match *self {
            SessionTarget::Identifier(id) => SessionTargetView::Identifier(id@),
            SessionTarget::FilePath(path) => SessionTargetView::FilePath(path@),
        }
    }
}

/// By what a tool is told its session: the identifier counts before the file.
pub open spec fn target_of(
    session_id: Option<Seq<char>>,
    file_path: Option<Seq<char>>,
) -> Option<SessionTargetView> {
    match (session_id, file_path) {
        (Some(id), _) => Some(SessionTargetView::Identifier(id)),
        (None, Some(path)) => Some(SessionTargetView::FilePath(path)),
        (None, None) => None,
    }
}

/// By what a tool is told its session, or the complaint that neither argument is there.
pub fn session_target(
    session_id: Option<&str>,
    file_path: Option<&str>,
    complaint: &str,
) -> (result: Result<SessionTarget, String>)
    ensures
        match result {
            Ok(target) => target_of(
                text::opt_str_text(session_id),
                text::opt_str_text(file_path),
            ) == Some(target@),
            Err(message) => session_id is None && file_path is None && message@ == complaint@,
        },
{
    match (session_id, file_path) {
        (Some(id), _) => Ok(SessionTarget::Identifier(id.to_owned())),
        (None, Some(path)) => Ok(SessionTarget::FilePath(path.to_owned())),
        (None, None) => Err(complaint.to_owned()),
    }
}

/// What a client is told of a session that it cannot use: where it has timed out, after how long.
pub open spec fn refusal_text(
    manager: ManagerView,
    session_id: Seq<char>,
    owner: Option<Seq<char>>,
) -> Seq<char> {
    if manager::is_known(manager.sessions, session_id) {
        error::session_error_text(SessionErrorView::NotOwned { session_id })
    } else {
        match manager::timeout_of(manager.timed_out, session_id) {
            Some(seconds) => "Session timed out after "@ + text::decimal_of(seconds as nat)
                + " seconds: "@ + session_id,
            None => "Session not found: "@ + session_id,
        }
    }
}

/// The session with the identifier, for the client that it belongs to.
pub fn session_by_id<'a>(
    manager: &'a SessionManager,
    session_id: &str,
    owner: Option<&str>,
) -> (result: Result<&'a SessionRecord, String>)
    ensures
        match result {
            Ok(record) => {
                &&& manager::is_known(manager@.sessions, session_id@)
                &&& record@ == manager::session_with(manager@.sessions, session_id@)
                &&& record@.mcp_session_id == text::opt_str_text(owner)
            },
            Err(message) => {
                &&& manager::is_known(manager@.sessions, session_id@) ==> manager::session_with(
                    manager@.sessions,
                    session_id@,
                ).mcp_session_id != text::opt_str_text(owner)
                &&& message@ == refusal_text(manager@, session_id@, text::opt_str_text(owner))
            },
        },
{
    match manager.get_owned(session_id, owner) {
        Ok(record) => Ok(record),
        Err(SessionError::NotFound(_)) => match manager.get_timeout_info(session_id) {
            Some(seconds) => Err(
                "Session timed out after ".to_owned().concat(
                    text::decimal(seconds).as_str(),
                ).concat(" seconds: ").concat(session_id),
            ),
            None => Err("Session not found: ".to_owned().concat(session_id)),
        },
        Err(failure) => Err(failure.message()),
    }
}

/// A file for a session that is created without one.
#[derive(Debug)]
pub struct ScratchFile {
    pub name: String,
    pub contents: String,
}

/// The name of a scratch file without its extension.
pub open spec fn scratch_name(id: Seq<char>) -> Seq<char> {
    "fstar_session_"@ + id
}

/// The answer of a tool that has nothing to report.
pub open spec fn ok_value() -> JsonView {
    JsonView::Object(seq![("status"@, JsonView::Text("ok"@))])
}

/// The answer of a tool that has nothing to report.
fn ok_answer() -> (answer: Json)
    ensures
        answer@ == ok_value(),
{
    let mut members: Vec<(String, Json)> = Vec::new();
    json::put(&mut members, "status", json::text("ok"));
    let answer = json::object(members);
    assert(answer@->Object_0 =~= ok_value()->Object_0);
    answer
}

/// The list, empty where it is missing.
pub open spec fn list_or_empty(list: Option<Vec<String>>) -> Seq<Seq<char>> {
    match list {
        Some(found) => text::texts(found@),
        None => Seq::empty(),
    }
}

/// The answer to the creation of a session.
pub open spec fn created_value(session: SessionView, created_file: bool) -> JsonView {
    JsonView::Object(
        seq![
            ("session_id"@, JsonView::Text(session.id)),
            ("file_path"@, JsonView::Text(session.file_path)),
            ("status"@, JsonView::Text("ready"@)),
            ("created_file"@, JsonView::Bool(created_file)),
            ("created_at"@, JsonView::Text(session.created_at.text)),
            (
                "message"@,
                JsonView::Text(
                    "F* checker and lax companion are warm; call typecheck_buffer after editing the file."@,
                ),
            ),
        ],
    )
}

/// The list, empty where it is missing.
fn unwrap_list(list: Option<Vec<String>>) -> (found: Vec<String>)
    ensures
        text::texts(found@) == list_or_empty(list),
{
    match list {
        Some(found) => found,
        None => {
            let empty: Vec<String> = Vec::new();
            assert(text::texts(empty@) =~= Seq::empty());
            empty
        },
    }
}

impl CreateSessionTool {
    /// The scratch file with the identifier: a module of that name, in which hyphens cannot stand.
    pub fn scratch_file(id: &str) -> (file: ScratchFile)
        ensures
            file.name@ == scratch_name(id@) + ".fst"@,
            file.contents@ == "module "@ + scratch_name(text::replaced(id@, '-', '_')) + "\n"@,
    {
        let name = "fstar_session_".to_owned().concat(id).concat(".fst");
        let module = "fstar_session_".to_owned().concat(
            text::replace_char(id, '-', '_').as_str(),
        );
        ScratchFile { name, contents: "module ".to_owned().concat(module.as_str()).concat("\n") }
    }

    /// A scratch file of a name that nobody can guess.
    pub fn new_scratch_file() -> (file: ScratchFile)
        ensures
            exists|id: Seq<char>|
                identifier::is_identifier(id) && file.name@ == #[trigger] scratch_name(id)
                    + ".fst"@ && file.contents@ == "module "@ + scratch_name(
                    text::replaced(id, '-', '_'),
                ) + "\n"@,
    {
        let id = identifier::new_identifier();
        CreateSessionTool::scratch_file(id.as_str())
    }

    /// The configuration that the arguments ask for.
    pub fn overrides(
        fstar_exe: Option<String>,
        cwd: Option<String>,
        include_dirs: Option<Vec<String>>,
        options: Option<Vec<String>>,
    ) -> (config: FStarConfig)
        ensures
            config@ == (FStarConfigView {
                include_dirs: list_or_empty(include_dirs),
                options: list_or_empty(options),
                fstar_exe: text::opt_text(fstar_exe),
                cwd: text::opt_text(cwd),
            }),
    {
        FStarConfig {
            include_dirs: unwrap_list(include_dirs),
            options: unwrap_list(options),
            fstar_exe,
            cwd,
        }
    }

    /// The answer to the creation of a session.
    pub fn respond(session: &Session, created_file: bool) -> (answer: Json)
        ensures
            answer@ == created_value(session@, created_file),
    {
        let mut members: Vec<(String, Json)> = Vec::new();
        json::put(&mut members, "session_id", json::text(session.id.as_str()));
        json::put(&mut members, "file_path", json::text(session.file_path.as_str()));
        json::put(&mut members, "status", json::text("ready"));
        json::put(&mut members, "created_file", Json::Bool(created_file));
        json::put(&mut members, "created_at", json::text(session.created_at.text.as_str()));
        json::put(
            &mut members,
            "message",
            json::text(
                "F* checker and lax companion are warm; call typecheck_buffer after editing the file.",
            ),
        );
        let answer = json::object(members);
        assert(answer@->Object_0 =~= created_value(session@, created_file)->Object_0);
        answer
    }
}

/// True when a diagnostic is an error.
pub open spec fn has_errors(diagnostics: Seq<IdeDiagnosticView>) -> bool {
    exists|i: int| 0 <= i < diagnostics.len() && (#[trigger] diagnostics[i]).level == "error"@
}

/// The verdict on a check: a file that has changed meanwhile counts before a check that took too
/// long, and that before errors.
pub open spec fn verdict(checked: SessionCheckView) -> Seq<char> {
    if checked.stale {
        "stale"@
    } else if checked.result.timed_out {
        "partial"@
    } else if has_errors(checked.result.diagnostics) {
        "error"@
    } else {
        "ok"@
    }
}

/// A check is called good only where it saw the file as it is, came to an end in time and found no
/// error.
pub proof fn law_good_verdicts_are_earned(checked: SessionCheckView)
    ensures
        verdict(checked) == "ok"@ <==> !checked.stale && !checked.result.timed_out && forall|i: int|
            0 <= i < checked.result.diagnostics.len() ==> (
            #[trigger] checked.result.diagnostics[i]).level != "error"@,
{
    reveal_strlit("ok");
    reveal_strlit("stale");
    reveal_strlit("partial");
    reveal_strlit("error");
    assert("ok"@.len() == 2 && "stale"@.len() == 5 && "partial"@.len() == 7 && "error"@.len() == 5);
}

/// The summary of a check in one line.
pub open spec fn summary_text(checked: SessionCheckView, duration_ms: u64) -> Seq<char> {
    verdict(checked) + ": verified through line "@ + text::decimal_of(
        checked.verified_through_line as nat,
    ) + "; reused "@ + text::decimal_of(checked.reused_fragments) + "/"@ + text::decimal_of(
        checked.result.fragments.len(),
    ) + " fragments; "@ + text::decimal_of(duration_ms as nat) + " ms"@ + (
    if checked.process_restarted {
        "; F* restarted and cache was lost"@
    } else {
        ""@
    })
}

/// The answer to a check.
pub open spec fn checked_value(
    file_path: Seq<char>,
    checked: SessionCheckView,
    duration_ms: u64,
) -> JsonView {
    let members = seq![
        ("status"@, JsonView::Text(verdict(checked))),
        ("summary"@, JsonView::Text(summary_text(checked, duration_ms))),
        ("file_path"@, JsonView::Text(file_path)),
        ("content_hash"@, JsonView::Text(checked.content_hash)),
        ("stale"@, JsonView::Bool(checked.stale)),
        ("timed_out"@, JsonView::Bool(checked.result.timed_out)),
        ("finished"@, JsonView::Bool(checked.result.finished)),
        ("reused_fragments"@, JsonView::Integer(checked.reused_fragments as int)),
        ("total_fragments"@, JsonView::Integer(checked.result.fragments.len() as int)),
        ("verified_through_line"@, JsonView::Integer(checked.verified_through_line as int)),
        ("duration_ms"@, JsonView::Integer(duration_ms as int)),
        ("process_restarted"@, JsonView::Bool(checked.process_restarted)),
        ("dependencies_changed"@, digest::strings_value(checked.dependencies_changed)),
    ];
    JsonView::Object(
        replies::with_optional(members, "hint"@, replies::text_value(checked.hint)).push(
            (
                "diagnostics"@,
                replies::diagnostic_values(checked.result.diagnostics, MAX_DIAGNOSTICS as nat),
            ),
        ),
    )
}

/// True when a diagnostic is an error.
fn any_error(diagnostics: &Vec<IdeDiagnostic>) -> (found: bool)
    ensures
        found == has_errors(messages::diagnostics_view(diagnostics@)),
{
    let mut index: usize = 0;
    while index < diagnostics.len()
        invariant
            index <= diagnostics@.len(),
            forall|i: int|
                0 <= i < index ==> (#[trigger] messages::diagnostics_view(diagnostics@)[i]).level
                    != "error"@,
        decreases diagnostics@.len() - index,
    {
        assert(messages::diagnostics_view(diagnostics@)[index as int]
            == diagnostics@[index as int]@);
        if text::same(diagnostics[index].level.as_str(), "error") {
            return true;
        }
        index += 1;
    }
    false
}

/// The verdict on a check.
pub fn check_status(checked: &SessionCheckResult) -> (status: &'static str)
    ensures
        status@ == verdict(checked@),
{
    if checked.stale {
        "stale"
    } else if checked.result.timed_out {
        "partial"
    } else if any_error(&checked.result.diagnostics) {
        "error"
    } else {
        "ok"
    }
}

/// The kind of check that the arguments ask for: a lax one counts before a kind that is named.
pub open spec fn kind_of(lax: Option<bool>, kind: Option<Seq<char>>) -> Seq<char> {
    if lax == Some(true) {
        "lax"@
    } else {
        match kind {
            Some(named) => named,
            None => "full"@,
        }
    }
}

/// The model of what was read from a file, where it was read.
pub open spec fn read_outcome(read: Option<Result<String, String>>) -> Option<
    Result<Seq<char>, Seq<char>>,
> {
    match read {
        Some(Ok(code)) => Some(Ok(code@)),
        Some(Err(reason)) => Some(Err(reason@)),
        None => None,
    }
}

/// The model of a text to check with its digest.
pub open spec fn text_outcome(result: Result<(String, Option<String>), String>) -> Result<
    (Seq<char>, Option<Seq<char>>),
    Seq<char>,
> {
    match result {
        Ok((code, hash)) => Ok((code@, text::opt_text(hash))),
        Err(message) => Err(message@),
    }
}

/// The text to check, and the digest of what stands on the disk.
pub open spec fn checked_text(
    content: Option<Seq<char>>,
    file_path: Seq<char>,
    read: Option<Result<Seq<char>, Seq<char>>>,
) -> Result<(Seq<char>, Option<Seq<char>>), Seq<char>> {
    match (content, read) {
        (Some(given), _) => Ok((given, None)),
        (None, Some(Ok(code))) => Ok((code, Some(digest::hash_of(code)))),
        (None, Some(Err(reason))) => Err("Failed to read "@ + file_path + ": "@ + reason),
        (None, None) => Err("Failed to read "@ + file_path + ": "@),
    }
}

/// A text that the client gives is the one that is checked, whatever stands on the disk, and the
/// check is never stale.
pub proof fn law_given_text_is_never_stale(
    content: Seq<char>,
    file_path: Seq<char>,
    read: Option<Result<Seq<char>, Seq<char>>>,
    run: state::CheckRunView,
    result: FullBufferView,
    current_hash: Option<Seq<char>>,
)
    ensures
        checked_text(Some(content), file_path, read) == Ok::<
            (Seq<char>, Option<Seq<char>>),
            Seq<char>,
        >((content, None)),
        !state::check_outcome(run, result, None, current_hash).stale,
{
}

impl TypecheckBufferTool {
    /// By what the tool is told its session.
    pub fn target(session_id: Option<&str>, file_path: Option<&str>) -> (result: Result<
        SessionTarget,
        String,
    >)
        ensures
            match result {
                Ok(target) => target_of(
                    text::opt_str_text(session_id),
                    text::opt_str_text(file_path),
                ) == Some(target@),
                Err(message) => session_id is None && file_path is None && message@
                    == "Provide file_path (preferred) or session_id"@,
            },
    {
        session_target(session_id, file_path, "Provide file_path (preferred) or session_id")
    }

    /// Refuses a file that is not the one of the session.
    pub fn verify_path(
        style: Style,
        session_id: &str,
        session_path: &str,
        supplied: &str,
    ) -> (result: Result<(), String>)
        ensures
            result is Ok <==> locations::is_same(style, supplied@, session_path@),
            result matches Err(message) ==> message@ == "Session "@ + session_id@ + " is for "@
                + session_path@ + ", not "@ + supplied@,
    {
        if locations::same_path(style, supplied, session_path) {
            Ok(())
        } else {
            Err(
                "Session ".to_owned().concat(session_id).concat(" is for ").concat(
                    session_path,
                ).concat(", not ").concat(supplied),
            )
        }
    }

    /// The file that is checked: that of the session, where the session was named, and else the one
    /// that the client named.
    pub fn source_path(session_id: Option<&str>, file_path: Option<&str>, session_path: &str) -> (path:
        String)
        ensures
            path@ == match (text::opt_str_text(session_id), text::opt_str_text(file_path)) {
                (None, Some(named)) => named,
                _ => session_path@,
            },
    {
        match (session_id, file_path) {
            (None, Some(named)) => named.to_owned(),
            _ => session_path.to_owned(),
        }
    }

    /// The path that is compared with that of the session: the one that is given beside the name of
    /// a session.
    pub fn path_to_verify(session_id: Option<&str>, file_path: Option<&str>) -> (path: Option<
        String,
    >)
        ensures
            text::opt_text(path) == (if session_id is Some {
                text::opt_str_text(file_path)
            } else {
                None
            }),
    {
        match (session_id, file_path) {
            (Some(_), Some(path)) => Some(path.to_owned()),
            _ => None,
        }
    }

    /// True when the text to check has to be read from the disk.
    pub fn reads_file(content: &Option<String>) -> (reads: bool)
        ensures
            reads == (content is None),
    {
        content.is_none()
    }

    /// The text to check, and the digest of what stands on the disk: a text that is given takes the
    /// place of the file and has no digest. `read` is what the file held, or why it could not be
    /// read.
    pub fn text_to_check(
        content: Option<String>,
        file_path: &str,
        read: Option<Result<String, String>>,
    ) -> (result: Result<(String, Option<String>), String>)
        requires
            content is Some || read is Some,
        ensures
            text_outcome(result) == checked_text(
                text::opt_text(content),
                file_path@,
                read_outcome(read),
            ),
    {
        match content {
            Some(given) => Ok((given, None)),
            None => match read {
                Some(Ok(code)) => {
                    let hash = digest::content_hash(code.as_str());
                    Ok((code, Some(hash)))
                },
                Some(Err(reason)) => Err(
                    TypecheckBufferTool::read_failure(file_path, reason.as_str()),
                ),
                None => Err(TypecheckBufferTool::read_failure(file_path, "")),
            },
        }
    }

    /// The complaint about a file that cannot be read.
    pub fn read_failure(file_path: &str, reason: &str) -> (message: String)
        ensures
            message@ == "Failed to read "@ + file_path@ + ": "@ + reason@,
    {
        "Failed to read ".to_owned().concat(file_path).concat(": ").concat(reason)
    }

    /// The kind of check that the arguments ask for.
    pub fn kind(lax: Option<bool>, kind: Option<&str>) -> (chosen: String)
        ensures
            chosen@ == kind_of(lax, text::opt_str_text(kind)),
    {
        match lax {
            Some(true) => "lax".to_owned(),
            _ => match kind {
                Some(named) => named.to_owned(),
                None => "full".to_owned(),
            },
        }
    }

    /// Up to where the check goes: a position needs both a line and a column.
    pub fn to_position(to_line: Option<u32>, to_column: Option<u32>) -> (position: Option<
        (u32, u32),
    >)
        ensures
            position == match (to_line, to_column) {
                (Some(line), Some(column)) => Some((line, column)),
                _ => None::<(u32, u32)>,
            },
    {
        match (to_line, to_column) {
            (Some(line), Some(column)) => Some((line, column)),
            _ => None,
        }
    }

    /// How many seconds the check may take.
    pub fn timeout(seconds: Option<u64>) -> (timeout: u64)
        ensures
            timeout == match seconds {
                Some(given) => given,
                None => DEFAULT_QUERY_TIMEOUT_SECS,
            },
    {
        match seconds {
            Some(given) => given,
            None => DEFAULT_QUERY_TIMEOUT_SECS,
        }
    }

    /// The summary of a check in one line.
    pub fn summary(checked: &SessionCheckResult, duration_ms: u64) -> (summary: String)
        ensures
            summary@ == summary_text(checked@, duration_ms),
    {
        assert(checked@.result.fragments.len() == checked.result.fragments@.len());
        let tail = if checked.process_restarted {
            "; F* restarted and cache was lost"
        } else {
            ""
        };
        check_status(checked).to_owned().concat(": verified through line ").concat(
            text::decimal(checked.verified_through_line as u64).as_str(),
        ).concat("; reused ").concat(
            text::decimal(checked.reused_fragments as u64).as_str(),
        ).concat("/").concat(text::decimal(checked.result.fragments.len() as u64).as_str()).concat(
            " fragments; ",
        ).concat(text::decimal(duration_ms).as_str()).concat(" ms").concat(tail)
    }

    /// The answer to a check.
    pub fn respond(file_path: &str, checked: &SessionCheckResult, duration_ms: u64) -> (answer: Json)
        ensures
            answer@ == checked_value(file_path@, checked@, duration_ms),
    {
        let summary = TypecheckBufferTool::summary(checked, duration_ms);
        assert(checked@.result.fragments.len() == checked.result.fragments@.len());
        let mut members: Vec<(String, Json)> = Vec::new();
        json::put(&mut members, "status", json::text(check_status(checked)));
        json::put(&mut members, "summary", json::text(summary.as_str()));
        json::put(&mut members, "file_path", json::text(file_path));
        json::put(&mut members, "content_hash", json::text(checked.content_hash.as_str()));
        json::put(&mut members, "stale", Json::Bool(checked.stale));
        json::put(&mut members, "timed_out", Json::Bool(checked.result.timed_out));
        json::put(&mut members, "finished", Json::Bool(checked.result.finished));
        json::put(
            &mut members,
            "reused_fragments",
            Json::Integer(checked.reused_fragments as i128),
        );
        json::put(
            &mut members,
            "total_fragments",
            Json::Integer(checked.result.fragments.len() as i128),
        );
        json::put(
            &mut members,
            "verified_through_line",
            Json::Integer(checked.verified_through_line as i128),
        );
        json::put(&mut members, "duration_ms", Json::Integer(duration_ms as i128));
        json::put(&mut members, "process_restarted", Json::Bool(checked.process_restarted));
        json::put(
            &mut members,
            "dependencies_changed",
            digest::strings_to_json(&checked.dependencies_changed),
        );
        assert(json::members_view(members@) =~= seq![
            ("status"@, JsonView::Text(verdict(checked@))),
            ("summary"@, JsonView::Text(summary_text(checked@, duration_ms))),
            ("file_path"@, JsonView::Text(file_path@)),
            ("content_hash"@, JsonView::Text(checked@.content_hash)),
            ("stale"@, JsonView::Bool(checked@.stale)),
            ("timed_out"@, JsonView::Bool(checked@.result.timed_out)),
            ("finished"@, JsonView::Bool(checked@.result.finished)),
            ("reused_fragments"@, JsonView::Integer(checked@.reused_fragments as int)),
            ("total_fragments"@, JsonView::Integer(checked@.result.fragments.len() as int)),
            ("verified_through_line"@, JsonView::Integer(checked@.verified_through_line as int)),
            ("duration_ms"@, JsonView::Integer(duration_ms as int)),
            ("process_restarted"@, JsonView::Bool(checked@.process_restarted)),
            ("dependencies_changed"@, digest::strings_value(checked@.dependencies_changed)),
        ]);
        let hint = match &checked.hint {
            Some(hint) => Some(json::text(hint.as_str())),
            None => None,
        };
        replies::put_optional(&mut members, "hint", hint);
        json::put(
            &mut members,
            "diagnostics",
            replies::diagnostics_to_json(&checked.result.diagnostics, MAX_DIAGNOSTICS),
        );
        json::object(members)
    }
}

impl UpdateBufferTool {
    /// The answer to an update.
    pub fn respond() -> (answer: Json)
        ensures
            answer@ == ok_value(),
    {
        ok_answer()
    }
}

impl LookupSymbolTool {
    /// By what the tool is told its session.
    pub fn target(session_id: Option<&str>, file_path: &str) -> (target: SessionTarget)
        ensures
            target_of(text::opt_str_text(session_id), Some(file_path@)) == Some(target@),
    {
        match session_id {
            Some(id) => SessionTarget::Identifier(id.to_owned()),
            None => SessionTarget::FilePath(file_path.to_owned()),
        }
    }

    /// The answer to a lookup.
    pub fn respond(found: &Option<IdeLookupResponse>) -> (answer: Json)
        ensures
            answer@ == replies::lookup_value(process::opt_lookup(*found)),
    {
        replies::lookup_to_json(found)
    }
}

impl RestartSolverTool {
    /// By what the tool is told its session.
    pub fn target(session_id: Option<&str>, file_path: Option<&str>) -> (result: Result<
        SessionTarget,
        String,
    >)
        ensures
            match result {
                Ok(target) => target_of(
                    text::opt_str_text(session_id),
                    text::opt_str_text(file_path),
                ) == Some(target@),
                Err(message) => session_id is None && file_path is None && message@
                    == "Provide file_path or session_id"@,
            },
    {
        session_target(session_id, file_path, "Provide file_path or session_id")
    }

    /// The answer to a restart.
    pub fn respond() -> (answer: Json)
        ensures
            answer@ == ok_value(),
    {
        ok_answer()
    }
}

impl CloseSessionTool {
    /// The answer once the session is closed.
    pub fn respond() -> (answer: Json)
        ensures
            answer@ == ok_value(),
    {
        ok_answer()
    }
}

impl ListSessionsTool {
    /// The answer with the sessions of the client.
    pub fn respond(infos: &Vec<SessionInfo>) -> (answer: Json)
        ensures
            answer@ == replies::sessions_value(manager::infos_view(infos@)),
    {
        replies::sessions_to_json(infos)
    }
}

impl GetProofContextTool {
    /// By what the tool is told its session.
    pub fn target(session_id: Option<&str>, file_path: Option<&str>) -> (result: Result<
        SessionTarget,
        String,
    >)
        ensures
            match result {
                Ok(target) => target_of(
                    text::opt_str_text(session_id),
                    text::opt_str_text(file_path),
                ) == Some(target@),
                Err(message) => session_id is None && file_path is None && message@
                    == "Provide file_path or session_id"@,
            },
    {
        session_target(session_id, file_path, "Provide file_path or session_id")
    }

    /// The answer with the proof states, or with the first one on a line.
    pub fn respond(states: &Vec<IdeProofState>, line: Option<u32>) -> (answer: Json)
        ensures
            answer@ == replies::proof_context_value(messages::proof_states_view(states@), line),
    {
        replies::proof_context_to_json(states, line)
    }
}

/// The answer with the fragments of a file.
pub open spec fn fragments_value(
    file_path: Seq<char>,
    fragments: Seq<process::FragmentView>,
) -> JsonView {
    JsonView::Object(
        seq![
            ("file_path"@, JsonView::Text(file_path)),
            ("fragment_count"@, JsonView::Integer(fragments.len() as int)),
            ("fragments"@, replies::fragment_values(fragments)),
        ],
    )
}

impl GetStatusTool {
    /// By what the tool is told its session.
    pub fn target(session_id: Option<&str>, file_path: Option<&str>) -> (result: Result<
        SessionTarget,
        String,
    >)
        ensures
            match result {
                Ok(target) => target_of(
                    text::opt_str_text(session_id),
                    text::opt_str_text(file_path),
                ) == Some(target@),
                Err(message) => session_id is None && file_path is None && message@
                    == "Provide file_path or session_id"@,
            },
    {
        session_target(session_id, file_path, "Provide file_path or session_id")
    }

    /// The answer with the fragments of a file.
    pub fn respond(file_path: &str, fragments: &Vec<FragmentResult>) -> (answer: Json)
        ensures
            answer@ == fragments_value(file_path@, process::fragments_view(fragments@)),
    {
        assert(process::fragments_view(fragments@).len() == fragments@.len());
        let mut members: Vec<(String, Json)> = Vec::new();
        json::put(&mut members, "file_path", json::text(file_path));
        json::put(&mut members, "fragment_count", Json::Integer(fragments.len() as i128));
        json::put(&mut members, "fragments", replies::fragments_to_json(fragments));
        let answer = json::object(members);
        assert(answer@->Object_0 =~= fragments_value(
            file_path@,
            process::fragments_view(fragments@),
        )->Object_0);
        answer
    }
}

/// The report on a file of a project.
pub open spec fn report_value(
    file_path: Seq<char>,
    checked: SessionCheckView,
    duration_ms: u64,
) -> JsonView {
    JsonView::Object(
        seq![
            ("file_path"@, JsonView::Text(file_path)),
            ("status"@, JsonView::Text(verdict(checked))),
            ("verified_through_line"@, JsonView::Integer(checked.verified_through_line as int)),
            ("reused_fragments"@, JsonView::Integer(checked.reused_fragments as int)),
            ("total_fragments"@, JsonView::Integer(checked.result.fragments.len() as int)),
            ("duration_ms"@, JsonView::Integer(duration_ms as int)),
            (
                "diagnostics"@,
                replies::diagnostic_values(
                    checked.result.diagnostics,
                    MAX_PROJECT_DIAGNOSTICS as nat,
                ),
            ),
        ],
    )
}

/// The answer to the check of a project.
pub open spec fn project_value(reports: Seq<JsonView>, failures: nat) -> JsonView {
    JsonView::Object(
        seq![
            ("status"@, JsonView::Text(if failures == 0 { "ok"@ } else { "error"@ })),
            ("checked_files"@, JsonView::Integer(reports.len() as int)),
            ("failed_files"@, JsonView::Integer(failures as int)),
            ("results"@, JsonView::Array(reports)),
            (
                "note"@,
                JsonView::Text(
                    "Files were checked in source dependency order. Run the project build when durable .checked artifacts are required."@,
                ),
            ),
        ],
    )
}

/// The check of a project so far.
#[derive(Debug)]
pub struct ProjectReport {
    pub results: Vec<Json>,
    pub failures: u64,
}

impl ProjectReport {
    /// Nothing has been checked yet.
    pub fn new() -> (report: ProjectReport)
        ensures
            report.results@.len() == 0,
            report.failures == 0,
    {
        ProjectReport { results: Vec::new(), failures: 0 }
    }

    /// True while no more files have failed than have been checked.
    pub open spec fn is_sound(&self) -> bool {
        self.failures <= self.results@.len()
    }

    /// Takes the check of a file into account; whatever is not good is a failure.
    pub fn add_result(&mut self, file_path: &str, checked: &SessionCheckResult, duration_ms: u64)
        requires
            old(self).is_sound(),
        ensures
            final(self).is_sound(),
            json::items_view(final(self).results@) == json::items_view(old(self).results@).push(
                report_value(file_path@, checked@, duration_ms),
            ),
            final(self).failures == old(self).failures + if verdict(checked@) == "ok"@ {
                0int
            } else {
                1int
            },
    {
        let status = check_status(checked);
        assert(checked@.result.fragments.len() == checked.result.fragments@.len());
        let mut members: Vec<(String, Json)> = Vec::new();
        json::put(&mut members, "file_path", json::text(file_path));
        json::put(&mut members, "status", json::text(status));
        json::put(
            &mut members,
            "verified_through_line",
            Json::Integer(checked.verified_through_line as i128),
        );
        json::put(
            &mut members,
            "reused_fragments",
            Json::Integer(checked.reused_fragments as i128),
        );
        json::put(
            &mut members,
            "total_fragments",
            Json::Integer(checked.result.fragments.len() as i128),
        );
        json::put(&mut members, "duration_ms", Json::Integer(duration_ms as i128));
        json::put(
            &mut members,
            "diagnostics",
            replies::diagnostics_to_json(&checked.result.diagnostics, MAX_PROJECT_DIAGNOSTICS),
        );
        let report = json::object(members);
        assert(report@->Object_0 =~= report_value(file_path@, checked@, duration_ms)->Object_0);
        self.results.push(report);
        assert(json::items_view(self.results@) =~= json::items_view(old(self).results@).push(
            report@,
        ));
        let count: usize = self.results.len();
        assert(self.failures < count);
        if !text::same(status, "ok") {
            self.failures += 1;
        }
    }

    /// The answer to the check of the project.
    pub fn respond(self) -> (answer: Json)
        ensures
            answer@ == project_value(json::items_view(self.results@), self.failures as nat),
    {
        let ghost expected = project_value(
            json::items_view(self.results@),
            self.failures as nat,
        )->Object_0;
        let count: usize = self.results.len();
        assert(json::items_view(self.results@).len() == count);
        let status = if self.failures == 0 {
            "ok"
        } else {
            "error"
        };
        let mut members: Vec<(String, Json)> = Vec::new();
        json::put(&mut members, "status", json::text(status));
        json::put(&mut members, "checked_files", Json::Integer(count as i128));
        json::put(&mut members, "failed_files", Json::Integer(self.failures as i128));
        json::put(&mut members, "results", json::array(self.results));
        json::put(
            &mut members,
            "note",
            json::text(
                "Files were checked in source dependency order. Run the project build when durable .checked artifacts are required.",
            ),
        );
        let answer = json::object(members);
        assert(answer@->Object_0 =~= expected);
        answer
    }
}

impl CheckProjectTool {
    /// The files in the order in which they are checked, or the complaint that there are none.
    pub fn plan(style: Style, files: &Vec<String>, sources: &Vec<String>) -> (result: Result<
        Vec<String>,
        String,
    >)
        requires
            files@.len() == sources@.len(),
        ensures
            match result {
                Ok(order) => files@.len() > 0 && text::texts(order@) == project::check_order(
                    style,
                    text::texts(files@),
                    text::texts(sources@),
                ),
                Err(message) => files@.len() == 0 && message@ == "No .fst or .fsti files found"@,
            },
    {
        if files.len() == 0 {
            return Err("No .fst or .fsti files found".to_owned());
        }
        Ok(project::dependency_order(style, files, sources))
    }
}

/// A check of a file that has changed meanwhile is stale; else one that took too long is partial;
/// else one with an error among its diagnostics, at whatever place, is in error; else it is good.
pub proof fn law_each_verdict_has_its_reason(checked: SessionCheckView, at: int)
    requires
        0 <= at < checked.result.diagnostics.len(),
    ensures
        checked.stale ==> verdict(checked) == "stale"@,
        !checked.stale && checked.result.timed_out ==> verdict(checked) == "partial"@,
        !checked.stale && !checked.result.timed_out && checked.result.diagnostics[at].level
            == "error"@ ==> verdict(checked) == "error"@,
        !checked.stale && !checked.result.timed_out && (forall|i: int|
            0 <= i < checked.result.diagnostics.len() ==> (
            #[trigger] checked.result.diagnostics[i]).level != "error"@) ==> verdict(checked)
            == "ok"@,
{
}

/// The summary of a check starts with its verdict, names the last line that is verified, the
/// fragments that were reused out of all, and the time, and ends with a warning exactly where the
/// process was restarted.
pub proof fn law_summaries_tell_the_numbers(checked: SessionCheckView, duration_ms: u64)
    ensures
        ({
            let told = verdict(checked) + ": verified through line "@ + text::decimal_of(
                checked.verified_through_line as nat,
            ) + "; reused "@ + text::decimal_of(checked.reused_fragments) + "/"@
                + text::decimal_of(checked.result.fragments.len()) + " fragments; "@
                + text::decimal_of(duration_ms as nat) + " ms"@;
            let summary = summary_text(checked, duration_ms);
            &&& checked.process_restarted ==> summary == told
                + "; F* restarted and cache was lost"@
            &&& !checked.process_restarted ==> summary == told
        }),
{
    reveal_strlit("");
    let told = verdict(checked) + ": verified through line "@ + text::decimal_of(
        checked.verified_through_line as nat,
    ) + "; reused "@ + text::decimal_of(checked.reused_fragments) + "/"@ + text::decimal_of(
        checked.result.fragments.len(),
    ) + " fragments; "@ + text::decimal_of(duration_ms as nat) + " ms"@;
    if !checked.process_restarted {
        assert(summary_text(checked, duration_ms) =~= told);
    }
}

/// The answer to a check holds its verdict and summary, the file, the digest of the text, what was
/// found and how it came about, each under its name; the advice exactly where there is one; and the
/// first diagnostics in their order, no more than twenty.
#[verifier::rlimit(60)]
pub proof fn law_checks_are_answered(
    file_path: Seq<char>,
    checked: SessionCheckView,
    duration_ms: u64,
    at: int,
)
    ensures
        ({
            let value = checked_value(file_path, checked, duration_ms);
            let found = checked.result.diagnostics;
            &&& json::member(value, "status"@) == Some(JsonView::Text(verdict(checked)))
            &&& json::member(value, "summary"@) == Some(
                JsonView::Text(summary_text(checked, duration_ms)),
            )
            &&& json::member(value, "file_path"@) == Some(JsonView::Text(file_path))
            &&& json::member(value, "content_hash"@) == Some(JsonView::Text(checked.content_hash))
            &&& json::member(value, "stale"@) == Some(JsonView::Bool(checked.stale))
            &&& json::member(value, "timed_out"@) == Some(JsonView::Bool(checked.result.timed_out))
            &&& json::member(value, "finished"@) == Some(JsonView::Bool(checked.result.finished))
            &&& json::member(value, "reused_fragments"@) == Some(
                JsonView::Integer(checked.reused_fragments as int),
            )
            &&& json::member(value, "total_fragments"@) == Some(
                JsonView::Integer(checked.result.fragments.len() as int),
            )
            &&& json::member(value, "verified_through_line"@) == Some(
                JsonView::Integer(checked.verified_through_line as int),
            )
            &&& json::member(value, "duration_ms"@) == Some(JsonView::Integer(duration_ms as int))
            &&& json::member(value, "process_restarted"@) == Some(
                JsonView::Bool(checked.process_restarted),
            )
            &&& json::member(value, "dependencies_changed"@) == Some(
                digest::strings_value(checked.dependencies_changed),
            )
            &&& match checked.hint {
                Some(hint) => json::member(value, "hint"@) == Some(JsonView::Text(hint)),
                None => json::member(value, "hint"@) is None,
            }
            &&& match json::member(value, "diagnostics"@) {
                Some(JsonView::Array(items)) => {
                    &&& found.len() <= 20 ==> items.len() == found.len()
                    &&& found.len() > 20 ==> items.len() == 20
                    &&& 0 <= at < items.len() ==> items[at] == replies::diagnostic_value(found[at])
                },
                _ => false,
            }
        }),
{
    reveal_strlit("status");
    reveal_strlit("summary");
    reveal_strlit("file_path");
    reveal_strlit("content_hash");
    reveal_strlit("stale");
    reveal_strlit("timed_out");
    reveal_strlit("finished");
    reveal_strlit("reused_fragments");
    reveal_strlit("total_fragments");
    reveal_strlit("verified_through_line");
    reveal_strlit("duration_ms");
    reveal_strlit("process_restarted");
    reveal_strlit("dependencies_changed");
    reveal_strlit("hint");
    reveal_strlit("diagnostics");
    assert("status"@.len() == 6);
    assert("summary"@.len() == 7);
    assert("file_path"@.len() == 9);
    assert("content_hash"@.len() == 12);
    assert("stale"@.len() == 5);
    assert("timed_out"@.len() == 9);
    assert("finished"@.len() == 8);
    assert("reused_fragments"@.len() == 16);
    assert("total_fragments"@.len() == 15);
    assert("verified_through_line"@.len() == 21);
    assert("duration_ms"@.len() == 11);
    assert("process_restarted"@.len() == 17);
    assert("dependencies_changed"@.len() == 20);
    assert("hint"@.len() == 4);
    assert("diagnostics"@.len() == 11);
    assert("file_path"@[0] == 'f');
    assert("timed_out"@[0] == 't');
    assert("diagnostics"@[1] == 'i');
    assert("duration_ms"@[1] == 'u');
    let value = checked_value(file_path, checked, duration_ms);
    let members = value->Object_0;
    match checked.hint {
        Some(hint) => {
            assert(members.len() == 15);
            assert(members[13] == ("hint"@, JsonView::Text(hint)));
            json::law_first_member_is_found(members, 0);
            json::law_first_member_is_found(members, 1);
            json::law_first_member_is_found(members, 2);
            json::law_first_member_is_found(members, 3);
            json::law_first_member_is_found(members, 4);
            json::law_first_member_is_found(members, 5);
            json::law_first_member_is_found(members, 6);
            json::law_first_member_is_found(members, 7);
            json::law_first_member_is_found(members, 8);
            json::law_first_member_is_found(members, 9);
            json::law_first_member_is_found(members, 10);
            json::law_first_member_is_found(members, 11);
            json::law_first_member_is_found(members, 12);
            json::law_first_member_is_found(members, 13);
            json::law_first_member_is_found(members, 14);
        },
        None => {
            assert(members.len() == 14);
            json::law_first_member_is_found(members, 0);
            json::law_first_member_is_found(members, 1);
            json::law_first_member_is_found(members, 2);
            json::law_first_member_is_found(members, 3);
            json::law_first_member_is_found(members, 4);
            json::law_first_member_is_found(members, 5);
            json::law_first_member_is_found(members, 6);
            json::law_first_member_is_found(members, 7);
            json::law_first_member_is_found(members, 8);
            json::law_first_member_is_found(members, 9);
            json::law_first_member_is_found(members, 10);
            json::law_first_member_is_found(members, 11);
            json::law_first_member_is_found(members, 12);
            json::law_first_member_is_found(members, 13);
            json::law_missing_members_are_not_found(value, "hint"@);
        },
    }
}

/// The answer to the creation of a session names the session, its file and when it was created, and
/// says whether the file was created with it.
pub proof fn law_creations_are_answered(session: SessionView, created_file: bool)
    ensures
        ({
            let value = created_value(session, created_file);
            &&& json::member(value, "session_id"@) == Some(JsonView::Text(session.id))
            &&& json::member(value, "file_path"@) == Some(JsonView::Text(session.file_path))
            &&& json::member(value, "status"@) == Some(JsonView::Text("ready"@))
            &&& json::member(value, "created_file"@) == Some(JsonView::Bool(created_file))
            &&& json::member(value, "created_at"@) == Some(
                JsonView::Text(session.created_at.text),
            )
        }),
{
    reveal_strlit("session_id");
    reveal_strlit("file_path");
    reveal_strlit("status");
    reveal_strlit("created_file");
    reveal_strlit("created_at");
    assert("session_id"@.len() == 10);
    assert("file_path"@.len() == 9);
    assert("status"@.len() == 6);
    assert("created_file"@.len() == 12);
    assert("created_at"@.len() == 10);
    assert("created_at"@[0] == 'c');
    assert("session_id"@[0] == 's');
    let members = created_value(session, created_file)->Object_0;
    json::law_first_member_is_found(members, 0);
    json::law_first_member_is_found(members, 1);
    json::law_first_member_is_found(members, 2);
    json::law_first_member_is_found(members, 3);
    json::law_first_member_is_found(members, 4);
}

/// A tool that has nothing to report answers with the status ok.
pub proof fn law_nothing_to_report_is_ok()
    ensures
        json::member(ok_value(), "status"@) == Some(JsonView::Text("ok"@)),
{
    json::law_first_member_is_found(ok_value()->Object_0, 0);
}

/// The answer with the fragments of a file names the file, counts the fragments and holds each of
/// them in its place.
pub proof fn law_statuses_are_answered(
    file_path: Seq<char>,
    fragments: Seq<process::FragmentView>,
    at: int,
)
    ensures
        ({
            let value = fragments_value(file_path, fragments);
            &&& json::member(value, "file_path"@) == Some(JsonView::Text(file_path))
            &&& json::member(value, "fragment_count"@) == Some(
                JsonView::Integer(fragments.len() as int),
            )
            &&& match json::member(value, "fragments"@) {
                Some(JsonView::Array(items)) => items.len() == fragments.len() && (0 <= at
                    < fragments.len() ==> items[at] == replies::fragment_value(fragments[at])),
                _ => false,
            }
        }),
{
    reveal_strlit("file_path");
    reveal_strlit("fragment_count");
    reveal_strlit("fragments");
    assert("file_path"@.len() == 9);
    assert("fragment_count"@.len() == 14);
    assert("fragments"@.len() == 9);
    assert("file_path"@[1] == 'i');
    assert("fragments"@[1] == 'r');
    let members = fragments_value(file_path, fragments)->Object_0;
    json::law_first_member_is_found(members, 0);
    json::law_first_member_is_found(members, 1);
    json::law_first_member_is_found(members, 2);
}

/// The report on a file of a project holds the file, its verdict and the numbers of its check, and
/// its first diagnostics in their order, no more than ten.
pub proof fn law_reports_tell_the_check(
    file_path: Seq<char>,
    checked: SessionCheckView,
    duration_ms: u64,
    at: int,
)
    ensures
        ({
            let value = report_value(file_path, checked, duration_ms);
            let found = checked.result.diagnostics;
            &&& json::member(value, "file_path"@) == Some(JsonView::Text(file_path))
            &&& json::member(value, "status"@) == Some(JsonView::Text(verdict(checked)))
            &&& json::member(value, "verified_through_line"@) == Some(
                JsonView::Integer(checked.verified_through_line as int),
            )
            &&& json::member(value, "reused_fragments"@) == Some(
                JsonView::Integer(checked.reused_fragments as int),
            )
            &&& json::member(value, "total_fragments"@) == Some(
                JsonView::Integer(checked.result.fragments.len() as int),
            )
            &&& json::member(value, "duration_ms"@) == Some(JsonView::Integer(duration_ms as int))
            &&& match json::member(value, "diagnostics"@) {
                Some(JsonView::Array(items)) => {
                    &&& found.len() <= 10 ==> items.len() == found.len()
                    &&& found.len() > 10 ==> items.len() == 10
                    &&& 0 <= at < items.len() ==> items[at] == replies::diagnostic_value(found[at])
                },
                _ => false,
            }
        }),
{
    reveal_strlit("file_path");
    reveal_strlit("status");
    reveal_strlit("verified_through_line");
    reveal_strlit("reused_fragments");
    reveal_strlit("total_fragments");
    reveal_strlit("duration_ms");
    reveal_strlit("diagnostics");
    assert("file_path"@.len() == 9);
    assert("status"@.len() == 6);
    assert("verified_through_line"@.len() == 21);
    assert("reused_fragments"@.len() == 16);
    assert("total_fragments"@.len() == 15);
    assert("duration_ms"@.len() == 11);
    assert("diagnostics"@.len() == 11);
    assert("diagnostics"@[1] == 'i');
    assert("duration_ms"@[1] == 'u');
    let members = report_value(file_path, checked, duration_ms)->Object_0;
    json::law_first_member_is_found(members, 0);
    json::law_first_member_is_found(members, 1);
    json::law_first_member_is_found(members, 2);
    json::law_first_member_is_found(members, 3);
    json::law_first_member_is_found(members, 4);
    json::law_first_member_is_found(members, 5);
    json::law_first_member_is_found(members, 6);
}

/// A project is good exactly when no file has failed; its answer counts the files and the failures
/// and holds the report of each file in the order of the checks.
pub proof fn law_projects_are_answered(reports: Seq<JsonView>, failures: nat)
    ensures
        ({
            let value = project_value(reports, failures);
            &&& failures == 0 ==> json::member(value, "status"@) == Some(JsonView::Text("ok"@))
            &&& failures > 0 ==> json::member(value, "status"@) == Some(JsonView::Text("error"@))
            &&& json::member(value, "checked_files"@) == Some(
                JsonView::Integer(reports.len() as int),
            )
            &&& json::member(value, "failed_files"@) == Some(JsonView::Integer(failures as int))
            &&& json::member(value, "results"@) == Some(JsonView::Array(reports))
        }),
{
    reveal_strlit("status");
    reveal_strlit("checked_files");
    reveal_strlit("failed_files");
    reveal_strlit("results");
    assert("status"@.len() == 6);
    assert("checked_files"@.len() == 13);
    assert("failed_files"@.len() == 12);
    assert("results"@.len() == 7);
    let members = project_value(reports, failures)->Object_0;
    json::law_first_member_is_found(members, 0);
    json::law_first_member_is_found(members, 1);
    json::law_first_member_is_found(members, 2);
    json::law_first_member_is_found(members, 3);
}

/// A session that is named by its identifier is found by it, whatever file is given; without an
/// identifier the file counts; without both there is no session.
pub proof fn law_identifiers_count_before_files(id: Seq<char>, file_path: Option<Seq<char>>)
    ensures
        target_of(Some(id), file_path) == Some(SessionTargetView::Identifier(id)),
        file_path is Some ==> target_of(None, file_path) == Some(
            SessionTargetView::FilePath(file_path->Some_0),
        ),
        target_of(None, None) is None,
{
}

/// A client is told that a session belongs to another one where there is a session with the
/// identifier, after how long it has timed out where the last note under the identifier says so, and
/// that there is none otherwise. Each names the identifier that the client has given.
pub proof fn law_refusals_tell_the_reason(
    manager: ManagerView,
    id: Seq<char>,
    owner: Option<Seq<char>>,
    open: int,
    note: int,
)
    ensures
        0 <= open < manager.sessions.len() && manager.sessions[open].id == id ==> refusal_text(
            manager,
            id,
            owner,
        ) == error::session_error_text(SessionErrorView::NotOwned { session_id: id }),
        (forall|i: int| 0 <= i < manager.sessions.len() ==> (#[trigger] manager.sessions[i]).id != id)
            && 0 <= note < manager.timed_out.len() && manager.timed_out[note].0 == id && (forall|
            i: int,
        |
            note < i < manager.timed_out.len() ==> (#[trigger] manager.timed_out[i]).0 != id)
            ==> refusal_text(manager, id, owner) == "Session timed out after "@ + text::decimal_of(
            manager.timed_out[note].1 as nat,
        ) + " seconds: "@ + id,
        (forall|i: int| 0 <= i < manager.sessions.len() ==> (#[trigger] manager.sessions[i]).id != id)
            && (forall|i: int|
            0 <= i < manager.timed_out.len() ==> (#[trigger] manager.timed_out[i]).0 != id)
            ==> refusal_text(manager, id, owner) == "Session not found: "@ + id,
{
    manager::law_sessions_are_known_by_their_identifier(manager.sessions, id, open);
    manager::law_the_last_timeout_counts(manager.timed_out, id, note);
}

/// A check that is asked to be lax is lax, whatever kind is named; otherwise the kind that is named
/// counts, and without one the check is full.
pub proof fn law_lax_counts_before_the_kind(lax: Option<bool>, kind: Option<Seq<char>>)
    ensures
        lax == Some(true) ==> kind_of(lax, kind) == "lax"@,
        lax != Some(true) && kind is Some ==> kind_of(lax, kind) == kind->Some_0,
        lax != Some(true) && kind is None ==> kind_of(lax, kind) == "full"@,
{
}

/// Without a text from the client the text of the file is checked, with its own digest; a file that
/// cannot be read is a fault that names the file and the reason.
pub proof fn law_files_are_checked_as_they_stand(
    file_path: Seq<char>,
    code: Seq<char>,
    reason: Seq<char>,
)
    ensures
        match checked_text(None, file_path, Some(Ok(code))) {
            Ok((checked, hash)) => checked == code && hash == Some(
                digest::sha256_text(vstd::utf8::encode_utf8(code)),
            ),
            Err(_) => false,
        },
        match checked_text(None, file_path, Some(Err(reason))) {
            Ok(_) => false,
            Err(message) => message == "Failed to read "@ + file_path + ": "@ + reason,
        },
{
}

/// The name of a scratch file tells its session apart: two identifiers give two names.
pub proof fn law_scratch_files_are_told_apart(a: Seq<char>, b: Seq<char>)
    ensures
        scratch_name(a) == "fstar_session_"@ + a,
        scratch_name(a) == scratch_name(b) ==> a == b,
{
    if scratch_name(a) == scratch_name(b) {
        let start = "fstar_session_"@.len() as int;
        assert(scratch_name(a).skip(start) =~= a);
        assert(scratch_name(b).skip(start) =~= b);
    }
}

/// A list that is given counts as it is, and one that is missing is empty.
pub proof fn law_missing_lists_are_empty(list: Vec<String>)
    ensures
        list_or_empty(Some(list)) == text::texts(list@),
        list_or_empty(None).len() == 0,
{
}

/// The file that is checked is the one that the client has named, unless it has named a session: then
/// it is the file of the session.
pub proof fn law_named_sessions_decide_the_file(
    session_id: Option<&str>,
    file_path: Option<&str>,
    session_path: &str,
    path: String,
)
    requires
        call_ensures(TypecheckBufferTool::source_path, (session_id, file_path, session_path), path),
    ensures
        session_id is Some ==> path@ == session_path@,
        session_id is None && file_path is Some ==> path@ == file_path->Some_0@,
        session_id is None && file_path is None ==> path@ == session_path@,
{
}

/// A check goes to a position only where both its line and its column are given, and may take as
/// long as is asked for, or a minute.
pub proof fn law_positions_need_line_and_column(
    line: Option<u32>,
    column: Option<u32>,
    seconds: Option<u64>,
    position: Option<(u32, u32)>,
    timeout: u64,
)
    requires
        call_ensures(TypecheckBufferTool::to_position, (line, column), position),
        call_ensures(TypecheckBufferTool::timeout, (seconds,), timeout),
    ensures
        line is Some && column is Some ==> position == Some((line->Some_0, column->Some_0)),
        line is None || column is None ==> position is None,
        seconds is Some ==> timeout == seconds->Some_0,
        seconds is None ==> timeout == 60,
{
}

/// A file that is given beside a session is compared with that of the session, and is refused
/// exactly where it is another one.
pub proof fn law_other_files_are_refused(
    style: Style,
    session_id: &str,
    session_path: &str,
    supplied: &str,
    given: Option<&str>,
    compared: Option<String>,
    result: Result<(), String>,
)
    requires
        call_ensures(
            TypecheckBufferTool::verify_path,
            (style, session_id, session_path, supplied),
            result,
        ),
        call_ensures(TypecheckBufferTool::path_to_verify, (given, Some(supplied)), compared),
    ensures
        result is Ok <==> locations::components(style, supplied@) == locations::components(
            style,
            session_path@,
        ),
        result matches Err(message) ==> message@ == "Session "@ + session_id@ + " is for "@
            + session_path@ + ", not "@ + supplied@,
        given is Some ==> text::opt_text(compared) == Some(supplied@),
        given is None ==> compared is None,
{
}

/// A project counts a failure exactly for each file that is not good, and reports each file.
pub proof fn law_failures_are_counted(
    report: &mut ProjectReport,
    file_path: &str,
    checked: &SessionCheckResult,
    duration_ms: u64,
)
    requires
        call_ensures(ProjectReport::add_result, (report, file_path, checked, duration_ms), ()),
    ensures
        verdict(checked@) == "ok"@ ==> final(report).failures == old(report).failures,
        verdict(checked@) != "ok"@ ==> final(report).failures == old(report).failures + 1,
        json::items_view(final(report).results@) == json::items_view(old(report).results@).push(
            report_value(file_path@, checked@, duration_ms),
        ),
{
}

/// A project without files is refused; any other one is checked in its order.
pub proof fn law_projects_need_files(
    style: Style,
    files: &Vec<String>,
    sources: &Vec<String>,
    result: Result<Vec<String>, String>,
)
    requires
        call_ensures(CheckProjectTool::plan, (style, files, sources), result),
    ensures
        result is Ok <==> files@.len() > 0,
        result matches Ok(order) ==> text::texts(order@) == project::check_order(
            style,
            text::texts(files@),
            text::texts(sources@),
        ),
{
}

/// The answer to a check is good exactly where the file was seen as it is, the check came to an end in
/// time and no diagnostic is an error; it tells how far the file is verified.
pub proof fn law_answers_tell_the_verdict(
    file_path: &str,
    checked: &SessionCheckResult,
    duration_ms: u64,
    answer: Json,
)
    requires
        call_ensures(TypecheckBufferTool::respond, (file_path, checked, duration_ms), answer),
    ensures
        json::member(answer@, "status"@) == Some(JsonView::Text("ok"@)) <==> !checked@.stale
            && !checked@.result.timed_out && forall|i: int|
            0 <= i < checked@.result.diagnostics.len() ==> (
            #[trigger] checked@.result.diagnostics[i]).level != "error"@,
        json::member(answer@, "verified_through_line"@) == Some(
            JsonView::Integer(checked@.verified_through_line as int),
        ),
        json::member(answer@, "file_path"@) == Some(JsonView::Text(file_path@)),
{
    law_checks_are_answered(file_path@, checked@, duration_ms, 0);
    law_good_verdicts_are_earned(checked@);
}

} // verus!
