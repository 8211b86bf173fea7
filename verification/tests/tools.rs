use fstar_mcp::fstar::messages::{FStarRange, IdeDiagnostic, IdeModule, IdeProofState, IdeSymbol};
use fstar_mcp::fstar::process::{FragmentResult, FragmentStatus, FullBufferResult};
use fstar_mcp::fstar::{FStarConfig, IdeLookupResponse};
use fstar_mcp::json::{self, Json};
use fstar_mcp::locations::Style;
use fstar_mcp::mcp::project::{
    dependency_order, is_skipped_directory, is_source_file, resolve_files, source_module, FileWalk,
};
use fstar_mcp::mcp::tools::{
    check_status, session_by_id, CheckProjectTool, CloseSessionTool, CreateSessionTool,
    GetProofContextTool, GetStatusTool, ListSessionsTool, LookupSymbolTool, ProjectReport,
    RestartSolverTool, SessionTarget, TypecheckBufferTool, UpdateBufferTool,
};
use fstar_mcp::session::moment::Moment;
use fstar_mcp::session::{content_hash, Session, SessionCheckResult, SessionManager};

fn strings(list: &[&str]) -> Vec<String> {
    list.iter().map(|item| item.to_string()).collect()
}

fn range(line: u32) -> FStarRange {
    FStarRange {
        fname: "T.fst".to_string(),
        beg: (line, 1),
        end: (line, 5),
    }
}

fn diagnostic(level: &str) -> IdeDiagnostic {
    IdeDiagnostic {
        message: "m".to_string(),
        number: Some(19),
        level: level.to_string(),
        ranges: vec![range(3), range(8)],
    }
}

fn checked(diagnostics: Vec<IdeDiagnostic>) -> SessionCheckResult {
    SessionCheckResult {
        result: FullBufferResult {
            diagnostics,
            fragments: vec![FragmentResult {
                range: range(3),
                status: FragmentStatus::Verified,
            }],
            finished: true,
            ..FullBufferResult::default()
        },
        content_hash: "hash".to_string(),
        stale: false,
        reused_fragments: 1,
        verified_through_line: 3,
        hint: None,
        process_restarted: false,
        dependencies_changed: strings(&["/p/D.fst"]),
    }
}

fn session(id: &str, owner: Option<&str>) -> Session {
    Session::new(
        Style::Unix,
        id.to_string(),
        "/p/T.fst",
        FStarConfig::default(),
        owner.map(|name| name.to_string()),
        false,
        Moment::at(5, 0).unwrap(),
    )
}

#[test]
fn verdicts_have_an_order() {
    let mut result = checked(vec![diagnostic("warning")]);
    assert_eq!(check_status(&result), "ok");
    result.result.diagnostics.push(diagnostic("error"));
    assert_eq!(check_status(&result), "error");
    result.result.timed_out = true;
    assert_eq!(check_status(&result), "partial");
    result.stale = true;
    assert_eq!(check_status(&result), "stale");
}

#[test]
fn checks_are_summarised() {
    let mut result = checked(Vec::new());
    assert_eq!(
        TypecheckBufferTool::summary(&result, 42),
        "ok: verified through line 3; reused 1/1 fragments; 42 ms"
    );
    result.process_restarted = true;
    assert_eq!(
        TypecheckBufferTool::summary(&result, 0),
        "ok: verified through line 3; reused 1/1 fragments; 0 ms; F* restarted and cache was lost"
    );
}

#[test]
fn checks_are_answered() {
    let mut result = checked(vec![diagnostic("error")]);
    result.hint = Some("advice".to_string());
    assert_eq!(
        json::to_text(TypecheckBufferTool::respond("/p/T.fst", &result, 7)),
        concat_lines(&[
            r#"{"status":"error","summary":"error: verified through line 3; reused 1/1 fragments; 7 ms","#,
            r#""file_path":"/p/T.fst","content_hash":"hash","stale":false,"timed_out":false,"finished":true,"#,
            r#""reused_fragments":1,"total_fragments":1,"verified_through_line":3,"duration_ms":7,"#,
            r#""process_restarted":false,"dependencies_changed":["/p/D.fst"],"hint":"advice","#,
            r#""diagnostics":[{"level":"error","message":"m","number":19,"#,
            r#""range":{"file":"T.fst","start_line":3,"start_column":1,"end_line":3,"end_column":5},"#,
            r#""related_ranges":[{"file":"T.fst","start_line":8,"start_column":1,"end_line":8,"end_column":5}]}]}"#,
        ])
    );
}

fn concat_lines(lines: &[&str]) -> String {
    lines.concat()
}

#[test]
fn diagnostics_are_capped() {
    let many: Vec<IdeDiagnostic> = (0..25).map(|_| diagnostic("error")).collect();
    let answer = TypecheckBufferTool::respond("f", &checked(many), 0);
    match answer.get("diagnostics") {
        Some(Json::Array(items)) => assert_eq!(items.len(), 20),
        _ => panic!("expected diagnostics"),
    }
    let many: Vec<IdeDiagnostic> = (0..25).map(|_| diagnostic("error")).collect();
    let mut report = ProjectReport::new();
    report.add_result("f", &checked(many), 0);
    match report.results[0].get("diagnostics") {
        Some(Json::Array(items)) => assert_eq!(items.len(), 10),
        _ => panic!("expected diagnostics"),
    }
}

#[test]
fn arguments_have_defaults() {
    assert_eq!(TypecheckBufferTool::kind(None, None), "full");
    assert_eq!(TypecheckBufferTool::kind(Some(false), Some("cache")), "cache");
    assert_eq!(TypecheckBufferTool::kind(Some(true), Some("cache")), "lax");
    assert_eq!(
        TypecheckBufferTool::to_position(Some(3), Some(4)),
        Some((3, 4))
    );
    assert_eq!(TypecheckBufferTool::to_position(Some(3), None), None);
    assert_eq!(TypecheckBufferTool::timeout(None), 60);
    assert_eq!(TypecheckBufferTool::timeout(Some(5)), 5);
    assert_eq!(
        TypecheckBufferTool::read_failure("/f", "gone"),
        "Failed to read /f: gone"
    );
}

#[test]
fn sessions_are_named_by_identifier_or_path() {
    assert!(matches!(
        TypecheckBufferTool::target(Some("s"), Some("f")),
        Ok(SessionTarget::Identifier(_))
    ));
    assert!(matches!(
        GetStatusTool::target(None, Some("f")),
        Ok(SessionTarget::FilePath(_))
    ));
    assert!(matches!(
        LookupSymbolTool::target(Some("s"), "f"),
        SessionTarget::Identifier(_)
    ));
    assert_eq!(
        TypecheckBufferTool::source_path(None, Some("f"), "/p/f"),
        "f"
    );
    assert_eq!(
        TypecheckBufferTool::source_path(Some("s"), Some("f"), "/p/f"),
        "/p/f"
    );
    assert_eq!(
        TypecheckBufferTool::target(None, None).unwrap_err(),
        "Provide file_path (preferred) or session_id"
    );
    assert_eq!(
        RestartSolverTool::target(None, None).unwrap_err(),
        "Provide file_path or session_id"
    );
    assert_eq!(
        GetProofContextTool::target(None, None).unwrap_err(),
        "Provide file_path or session_id"
    );
}

#[test]
fn only_a_given_session_has_its_path_compared() {
    assert_eq!(
        TypecheckBufferTool::path_to_verify(Some("s"), Some("f")),
        Some("f".to_string())
    );
    assert_eq!(TypecheckBufferTool::path_to_verify(None, Some("f")), None);
    assert_eq!(TypecheckBufferTool::path_to_verify(Some("s"), None), None);
}

#[test]
fn given_text_goes_before_the_file() {
    let given = Some("module T".to_string());
    assert!(!TypecheckBufferTool::reads_file(&given));
    assert!(TypecheckBufferTool::reads_file(&None));
    assert_eq!(
        TypecheckBufferTool::text_to_check(given, "/p/T.fst", None).unwrap(),
        ("module T".to_string(), None)
    );
    assert_eq!(
        TypecheckBufferTool::text_to_check(None, "/p/T.fst", Some(Ok("abc".to_string()))).unwrap(),
        ("abc".to_string(), Some(content_hash("abc")))
    );
    assert_eq!(
        TypecheckBufferTool::text_to_check(None, "/p/T.fst", Some(Err("gone".to_string())))
            .unwrap_err(),
        TypecheckBufferTool::read_failure("/p/T.fst", "gone")
    );
}

#[test]
fn unusable_sessions_are_explained() {
    let mut manager = SessionManager::new(Style::Unix, None, None);
    manager.insert_session(&session("one", Some("me")));
    assert!(session_by_id(&manager, "one", Some("me")).is_ok());
    assert!(
        TypecheckBufferTool::verify_path(Style::Unix, "one", "/p/T.fst", "/p/./T.fst").is_ok()
    );
    assert_eq!(
        TypecheckBufferTool::verify_path(Style::Unix, "one", "/p/T.fst", "/p/U.fst").unwrap_err(),
        "Session one is for /p/T.fst, not /p/U.fst"
    );
    assert!(
        TypecheckBufferTool::verify_path(Style::Windows, "one", "C:\\p\\T.fst", "c:/p/T.fst")
            .is_ok()
    );
    assert_eq!(
        session_by_id(&manager, "one", None).unwrap_err(),
        "Session one belongs to another MCP client"
    );
    assert_eq!(
        session_by_id(&manager, "two", None).unwrap_err(),
        "Session not found: two"
    );
    manager.expire("one", 30);
    assert_eq!(
        session_by_id(&manager, "one", Some("me")).unwrap_err(),
        "Session timed out after 30 seconds: one"
    );
}

#[test]
fn sessions_are_created() {
    let file = CreateSessionTool::scratch_file("1-2");
    assert_eq!(file.name, "fstar_session_1-2.fst");
    assert_eq!(file.contents, "module fstar_session_1_2\n");
    let fresh = CreateSessionTool::new_scratch_file();
    assert_eq!(fresh.name.len(), "fstar_session_.fst".len() + 36);
    assert!(!fresh.contents.contains('-'));
    assert_eq!(
        json::to_text(CreateSessionTool::respond(&session("one", None), true)),
        concat_lines(&[
            r#"{"session_id":"one","file_path":"/p/T.fst","status":"ready","created_file":true,"#,
            r#""created_at":"1970-01-01T00:00:05+00:00","#,
            r#""message":"F* checker and lax companion are warm; call typecheck_buffer after editing the file."}"#,
        ])
    );
    let config = CreateSessionTool::overrides(None, Some("/c".to_string()), None, None);
    assert_eq!(config.cwd, Some("/c".to_string()));
    assert!(config.options.is_empty());
}

#[test]
fn lookups_are_described() {
    let symbol = Some(IdeLookupResponse::Symbol(IdeSymbol {
        name: "x".to_string(),
        type_info: Some("int".to_string()),
        documentation: None,
        defined_at: Some(range(2)),
    }));
    assert_eq!(
        json::to_text(LookupSymbolTool::respond(&symbol)),
        r#"{"kind":"symbol","name":"x","type_info":"int","defined_at":{"file":"T.fst","start_line":2,"start_column":1,"end_line":2,"end_column":5}}"#
    );
    let module = Some(IdeLookupResponse::Module(IdeModule {
        name: "M".to_string(),
        path: "M.fst".to_string(),
    }));
    assert_eq!(
        json::to_text(LookupSymbolTool::respond(&module)),
        r#"{"kind":"module","name":"M","defined_at":{"file":"M.fst","start_line":1,"start_column":0,"end_line":1,"end_column":0}}"#
    );
    assert_eq!(
        json::to_text(LookupSymbolTool::respond(&None)),
        r#"{"kind":"not_found"}"#
    );
}

#[test]
fn proof_states_are_shown() {
    let states = vec![
        IdeProofState {
            location: range(2),
            contents: json::text("first"),
        },
        IdeProofState {
            location: range(4),
            contents: json::text("second"),
        },
    ];
    assert_eq!(
        json::to_text(GetProofContextTool::respond(&states, None)),
        r#"{"count":2,"proof_states":["first","second"]}"#
    );
    assert_eq!(
        json::to_text(GetProofContextTool::respond(&states, Some(4))),
        r#"{"found":true,"line":4,"proof_state":"second"}"#
    );
    assert_eq!(
        json::to_text(GetProofContextTool::respond(&states, Some(3))),
        r#"{"found":false,"line":3,"proof_state":null}"#
    );
}

#[test]
fn fragments_are_shown() {
    let statuses = [
        FragmentStatus::Verified,
        FragmentStatus::LaxOk,
        FragmentStatus::Failed,
        FragmentStatus::InProgress,
    ];
    let fragments: Vec<FragmentResult> = statuses
        .iter()
        .map(|status| FragmentResult {
            range: range(1),
            status: *status,
        })
        .collect();
    let text = json::to_text(GetStatusTool::respond("/p/T.fst", &fragments));
    assert!(text.starts_with(
        r#"{"file_path":"/p/T.fst","fragment_count":4,"fragments":[{"start_line":1,"start_column":1,"end_line":1,"end_column":5,"status":"ok"}"#
    ));
    for name in ["lax-ok", "failed", "in-progress"] {
        assert!(text.contains(name));
    }
}

#[test]
fn sessions_are_listed() {
    let mut manager = SessionManager::new(Style::Unix, None, None);
    manager.insert_session(&session("one", Some("me")));
    let infos = manager.list_sessions(Some("me"), &Moment::at(6, 0).unwrap());
    assert_eq!(
        json::to_text(ListSessionsTool::respond(&infos)),
        concat_lines(&[
            r#"{"count":1,"sessions":[{"session_id":"one","file_path":"/p/T.fst","#,
            r#""created_at":"1970-01-01T00:00:05+00:00","last_activity":"1970-01-01T00:00:05+00:00","#,
            r#""idle_seconds":1,"mcp_session_id":"me","marked_for_deletion":false}]}"#,
        ])
    );
    for answer in [
        UpdateBufferTool::respond(),
        RestartSolverTool::respond(),
        CloseSessionTool::respond(),
    ] {
        assert_eq!(json::to_text(answer), r#"{"status":"ok"}"#);
    }
}

#[test]
fn projects_are_searched() {
    assert!(is_skipped_directory(Style::Unix, "/p/.git"));
    assert!(is_skipped_directory(Style::Unix, "/p/target/"));
    assert!(!is_skipped_directory(Style::Unix, "/p/src"));
    assert!(is_source_file(Style::Unix, "/p/A.fst"));
    assert!(is_source_file(Style::Unix, "/p/A.x.fsti"));
    assert!(!is_source_file(Style::Unix, "/p/.fst"));
    assert!(!is_source_file(Style::Unix, "/p/A.fst.checked"));
    assert!(is_skipped_directory(Style::Windows, "C:\\p\\target"));
    assert!(!is_skipped_directory(Style::Unix, "C:\\p\\target"));
    let mut walk = FileWalk::new("/p");
    assert_eq!(walk.next_directory(), Some("/p".to_string()));
    walk.add_entry(Style::Unix, "/p/_build".to_string(), true);
    walk.add_entry(Style::Unix, "/p/lib".to_string(), true);
    walk.add_entry(Style::Unix, "/p/Z.fst".to_string(), false);
    walk.add_entry(Style::Unix, "/p/notes.txt".to_string(), false);
    assert_eq!(walk.next_directory(), Some("/p/lib".to_string()));
    walk.add_entry(Style::Unix, "/p/lib/A.fsti".to_string(), false);
    assert_eq!(walk.next_directory(), None);
    assert_eq!(
        walk.collect_fstar_files(Style::Unix),
        strings(&["/p/Z.fst", "/p/lib/A.fsti"])
    );
    assert_eq!(
        resolve_files(Style::Unix, &strings(&["A.fst", "/q/B.fst"]), "/p"),
        strings(&["/p/A.fst", "/q/B.fst"])
    );
}

#[test]
fn files_stand_behind_what_they_need() {
    let files = strings(&["/p/C.fst", "/p/B.fst", "/p/A.fst", "/p/D.fst"]);
    let sources = strings(&[
        "module C\nopen B\nopen Unknown\n",
        "// first\nmodule B;\ninclude A\nopen B\n",
        "module A\n",
        "module D\nopen A\n",
    ]);
    assert_eq!(
        dependency_order(Style::Unix, &files, &sources),
        strings(&["/p/A.fst", "/p/B.fst", "/p/C.fst", "/p/D.fst"])
    );
    assert_eq!(source_module("\n  module X.Y;;\n"), Some("X.Y".to_string()));
    assert_eq!(source_module("let x = 1\n"), None);
}

#[test]
fn windows_files_are_told_apart_by_their_parts() {
    let mut walk = FileWalk::new("C:\\w");
    assert_eq!(walk.next_directory(), Some("C:\\w".to_string()));
    walk.add_entry(Style::Windows, "C:\\w\\p-x\\B.fst".to_string(), false);
    walk.add_entry(Style::Windows, "C:\\w\\p\\A.fst".to_string(), false);
    assert_eq!(
        walk.collect_fstar_files(Style::Windows),
        strings(&["C:\\w\\p\\A.fst", "C:\\w\\p-x\\B.fst"])
    );
    let files = strings(&["C:\\p\\B.fst", "C:/p/A.fst"]);
    let sources = strings(&["module B\nopen A\n", "module A\nopen A\n"]);
    assert_eq!(
        dependency_order(Style::Windows, &files, &sources),
        strings(&["C:/p/A.fst", "C:\\p\\B.fst"])
    );
}

#[test]
fn circles_are_broken_at_the_first_file() {
    let files = strings(&["/p/A.fst", "/p/B.fst"]);
    let sources = strings(&["module A\nopen B\n", "module B\nopen A\n"]);
    assert_eq!(dependency_order(Style::Unix, &files, &sources), files);
}

#[test]
fn projects_are_reported() {
    assert_eq!(
        CheckProjectTool::plan(Style::Unix, &Vec::new(), &Vec::new()).unwrap_err(),
        "No .fst or .fsti files found"
    );
    assert_eq!(
        CheckProjectTool::plan(Style::Unix, &strings(&["/p/A.fst"]), &strings(&["module A"])).unwrap(),
        strings(&["/p/A.fst"])
    );
    let mut report = ProjectReport::new();
    report.add_result("/p/A.fst", &checked(Vec::new()), 1);
    report.add_result("/p/B.fst", &checked(vec![diagnostic("error")]), 2);
    assert_eq!(report.failures, 1);
    let text = json::to_text(report.respond());
    assert!(text.starts_with(concat_lines(&[
        r#"{"status":"error","checked_files":2,"failed_files":1,"results":[{"file_path":"/p/A.fst","#,
        r#""status":"ok","verified_through_line":3,"reused_fragments":1,"total_fragments":1,"#,
        r#""duration_ms":1,"diagnostics":[]}"#,
    ]).as_str()));
    assert!(text.ends_with(
        r#""note":"Files were checked in source dependency order. Run the project build when durable .checked artifacts are required."}"#
    ));
    let mut good = ProjectReport::new();
    good.add_result("/p/A.fst", &checked(Vec::new()), 1);
    assert!(json::to_text(good.respond()).starts_with(r#"{"status":"ok""#));
}
