use fstar_mcp::fstar::messages::FStarRange;
use fstar_mcp::fstar::process::{
    query_id_matches, record_fragment, BufferAction, BufferEvent, BufferQuery, FStarProcess,
    FStarProcessControl, FragmentStatus, FullBufferResult, Launch, LaunchDecision, LaunchFailure,
    ProcessError, Reception, StartEvent, MAX_PENDING,
};
use fstar_mcp::fstar::protocol::{
    full_buffer_query, identify, lookup_query, message_line, parse_response, read_output_line,
    restart_solver_query, vfs_add_query, FStarResponse, ResponseError,
};
use fstar_mcp::fstar::solver::{z3_descendants, RestartAction, RestartCourse, RestartEvent};
use fstar_mcp::fstar::{FStarConfig, IdeLookupResponse};
use fstar_mcp::json::{self, Json};
use fstar_mcp::locations::Style;

fn range(line: u32) -> FStarRange {
    FStarRange {
        fname: "Test.fst".to_string(),
        beg: (line, 0),
        end: (line + 1, 9),
    }
}

fn message(line: &str) -> FStarResponse {
    parse_response(line).unwrap()
}

fn progress(query_id: &str, stage: &str, line: Option<u32>) -> FStarResponse {
    FStarResponse::Progress {
        query_id: query_id.to_string(),
        stage: stage.to_string(),
        ranges: line.map(range),
    }
}

fn started() -> FStarProcess {
    FStarProcess::wait_for_protocol_info(StartEvent::Message(message(
        r#"{"kind":"protocol-info","version":3,"features":["full-buffer","vfs-add","lookup"]}"#,
    )))
    .unwrap()
}

fn query(query_id: &str) -> BufferQuery {
    BufferQuery {
        query_id: query_id.to_string(),
        result: FullBufferResult::default(),
    }
}

#[test]
fn test_parse_protocol_info() {
    let line = r#"{"kind":"protocol-info","version":3,"features":["full-buffer","vfs-add"]}"#;
    let response = parse_response(line).unwrap();
    match response {
        FStarResponse::ProtocolInfo(info) => {
            assert_eq!(info.version, 3);
            assert!(info.supports_full_buffer());
        }
        _ => panic!("Expected ProtocolInfo"),
    }
}

#[test]
fn test_parse_progress() {
    let line = r#"{"query-id":"1","kind":"message","level":"progress","contents":{"stage":"full-buffer-started"}}"#;
    let response = parse_response(line).unwrap();
    match response {
        FStarResponse::Progress {
            query_id, stage, ..
        } => {
            assert_eq!(query_id, "1");
            assert_eq!(stage, "full-buffer-started");
        }
        _ => panic!("Expected Progress"),
    }
}

#[test]
fn test_parse_response_success() {
    let line = r#"{"query-id":"1","kind":"response","status":"success","response":null}"#;
    let response = parse_response(line).unwrap();
    match response {
        FStarResponse::Response(r) => {
            assert_eq!(r.query_id, "1");
            assert_eq!(r.status, Some("success".to_string()));
        }
        _ => panic!("Expected Response"),
    }
}

#[test]
fn other_lines_are_told_apart() {
    match message(r#"{"query-id":"2","kind":"message","level":"warning","contents":"careful"}"#) {
        FStarResponse::StatusMessage {
            query_id,
            level,
            contents,
        } => assert_eq!(
            (query_id.as_str(), level.as_str(), contents.as_str()),
            ("2", "warning", "careful")
        ),
        _ => panic!("Expected StatusMessage"),
    }
    match message(
        r#"{"query-id":"3","kind":"message","level":"proof-state","contents":{"location":{"fname":"T","beg":[4,1],"end":[4,2]},"goals":[]}}"#,
    ) {
        FStarResponse::ProofState { proof_state, .. } => {
            assert_eq!(proof_state.location.beg, (4, 1))
        }
        _ => panic!("Expected ProofState"),
    }
    assert!(matches!(
        parse_response("not json"),
        Err(ResponseError::InvalidJson(_))
    ));
    assert!(matches!(
        parse_response(r#"{"query-id":"3","kind":"message","level":"proof-state"}"#),
        Err(ResponseError::InvalidMessage)
    ));
    assert!(read_output_line("  \n").is_none());
    assert!(read_output_line("broken\n").is_none());
    assert!(read_output_line(" {\"query-id\":\"1\",\"kind\":\"response\"}\r\n").is_some());
}

#[test]
fn messages_are_single_lines() {
    let (query_id, sent) = FStarProcessControl::new().send_query(vfs_add_query(None, "a\nb"));
    assert_eq!(query_id, "1");
    assert_eq!(
        message_line(sent),
        "{\"query\":\"vfs-add\",\"args\":{\"filename\":null,\"contents\":\"a\\nb\"},\"query-id\":\"1\"}\n"
    );
}

#[test]
fn queries_have_their_arguments() {
    assert_eq!(
        json::to_text(full_buffer_query("c", "full", Some((3, 4)))),
        r#"{"query":"full-buffer","args":{"kind":"full","with-symbols":false,"code":"c","line":0,"column":0,"to-position":{"line":3,"column":4}}}"#
    );
    assert_eq!(
        json::to_text(lookup_query("f", 1, 2, "s")),
        r#"{"query":"lookup","args":{"context":"code","symbol":"s","requested-info":["type","documentation","defined-at"],"location":{"filename":"f","line":1,"column":2}}}"#
    );
    assert_eq!(
        json::to_text(identify(restart_solver_query(), "7")),
        r#"{"query":"restart-solver","args":{},"query-id":"7"}"#
    );
    assert_eq!(
        json::to_text(vfs_add_query(Some("f"), "x")),
        r#"{"query":"vfs-add","args":{"filename":"f","contents":"x"}}"#
    );
    let mut control = FStarProcessControl { next: 9 };
    assert_eq!(
        json::to_text(control.cancel((2, 0))),
        r#"{"query-id":"9","query":"cancel","args":{"cancel-line":2,"cancel-column":0}}"#
    );
    assert_eq!(control.next_query_id(), "10");
    control.next = u64::MAX;
    assert_eq!(control.next_query_id(), "18446744073709551615");
    assert_eq!(control.next_query_id(), "0");
}

#[test]
fn queries_without_members_get_an_identifier() {
    assert_eq!(
        json::to_text(identify(Json::Null, "7")),
        r#"{"query-id":"7"}"#
    );
    let (query_id, sent) = FStarProcessControl::new().send_query(Json::Null);
    assert_eq!(sent.string_member("query-id"), Some(query_id));
    let given = json::parse(r#"{"query-id":"old","query":"pop"}"#).unwrap();
    assert_eq!(
        json::to_text(identify(given, "8")),
        r#"{"query-id":"8","query":"pop"}"#
    );
}

#[test]
fn query_ids_only_match_exact_roots() {
    assert!(query_id_matches("1", "1", true));
    assert!(query_id_matches("1.12", "1", true));
    assert!(!query_id_matches("10", "1", true));
    assert!(!query_id_matches("10.1", "1", true));
    assert!(!query_id_matches("1.1", "1", false));
}

#[test]
fn fragments_are_listed_once() {
    let mut fragments = Vec::new();
    record_fragment(&mut fragments, None, FragmentStatus::Failed);
    assert!(fragments.is_empty());
    record_fragment(&mut fragments, Some(range(1)), FragmentStatus::InProgress);
    record_fragment(&mut fragments, Some(range(3)), FragmentStatus::InProgress);
    record_fragment(&mut fragments, Some(range(1)), FragmentStatus::Verified);
    record_fragment(&mut fragments, None, FragmentStatus::LaxOk);
    assert_eq!(fragments.len(), 2);
    assert_eq!(fragments[0].status, FragmentStatus::Verified);
    assert_eq!(fragments[1].status, FragmentStatus::LaxOk);
}

#[test]
fn full_buffer_uses_exact_query_id_roots_and_buffers_other_responses() {
    let mut process = started();
    assert!(process
        .full_buffer_query("module Test\nlet x = 1\n", "full", None)
        .is_ok());
    let mut check = query("1");
    assert!(matches!(process.resume(&mut check), BufferAction::Receive));
    let lines = [
        r#"{"query-id":"10","kind":"response","status":"success","response":[{"message":"wrong query","number":1,"level":"error","ranges":[]}]}"#,
        r#"{"query-id":"1","kind":"message","level":"progress","contents":{"stage":"full-buffer-started"}}"#,
        r#"{"query-id":"1.1","kind":"message","level":"progress","contents":{"stage":"full-buffer-fragment-started","ranges":{"fname":"Test.fst","beg":[1,0],"end":[2,9]}}}"#,
        r#"{"query-id":"1.2","kind":"message","level":"progress","contents":{"stage":"full-buffer-fragment-ok","ranges":{"fname":"Test.fst","beg":[1,0],"end":[2,9]}}}"#,
        r#"{"query-id":"1.3","kind":"message","level":"progress","contents":{"stage":"full-buffer-finished"}}"#,
    ];
    let mut last = BufferAction::Receive;
    for line in lines {
        last = process.advance(&mut check, BufferEvent::Message(message(line)));
    }
    assert!(matches!(last, BufferAction::Finished));
    let result = check.result;
    assert!(result.finished);
    assert!(!result.timed_out);
    assert!(result.diagnostics.is_empty());
    assert_eq!(result.fragments.len(), 1);
    assert_eq!(process.pending_responses.len(), 1);
    assert!(process.take_pending("1", true).is_none());
    assert!(process.take_pending("10", false).is_some());
    assert!(FStarProcess::vfs_add_outcome(Some(message(
        r#"{"query-id":"2","kind":"response","status":"success","response":null}"#
    )))
    .is_ok());
}

#[test]
fn waiting_messages_are_taken_first() {
    let mut process = started();
    for line in [1, 2] {
        assert!(process
            .sort_out(
                progress("5.1", "full-buffer-fragment-ok", Some(line)),
                "4",
                true
            )
            .is_none());
    }
    assert!(process
        .sort_out(progress("5", "full-buffer-finished", None), "4", true)
        .is_none());
    let mut check = query("5");
    assert!(matches!(process.resume(&mut check), BufferAction::Finished));
    assert_eq!(check.result.fragments.len(), 2);
    assert!(process.pending_responses.is_empty());
}

#[test]
fn answers_are_waited_for() {
    let mut process = started();
    assert!(matches!(
        process.recv_matching("3", false, None),
        Reception::Wait
    ));
    for id in ["2", "3.1"] {
        assert!(matches!(
            process.recv_matching("3", false, Some(BufferEvent::Message(progress(id, "x", None)))),
            Reception::Wait
        ));
    }
    assert!(matches!(
        process.recv_matching("3", false, Some(BufferEvent::Message(progress("3", "x", None)))),
        Reception::Answer(_)
    ));
    assert_eq!(process.pending_responses.len(), 2);
    assert!(matches!(
        process.recv_matching("2", false, None),
        Reception::Answer(_)
    ));
    assert_eq!(process.pending_responses.len(), 1);
    assert!(matches!(
        process.recv_matching("4", false, Some(BufferEvent::DeadlinePassed)),
        Reception::Expired
    ));
    assert!(matches!(
        process.recv_matching("4", false, Some(BufferEvent::Closed)),
        Reception::Fail(ProcessError::ProcessExited(None))
    ));
}

#[test]
fn only_the_oldest_unclaimed_message_is_dropped() {
    let mut process = started();
    for number in 0..=MAX_PENDING {
        let id = format!("{}", number);
        assert!(process.sort_out(progress(&id, "x", None), "q", true).is_none());
    }
    assert_eq!(process.pending_responses.len(), MAX_PENDING);
    assert!(process.take_pending("0", false).is_none());
    assert!(process.take_pending("1", false).is_some());
}

#[test]
fn a_new_request_can_cancel_an_in_flight_full_buffer_query() {
    let mut process = started();
    let mut check = query("1");
    let mut control = FStarProcessControl { next: 2 };
    process.advance(
        &mut check,
        BufferEvent::Message(progress("1", "full-buffer-started", None)),
    );
    assert_eq!(
        json::to_text(control.cancel((2, 0))),
        r#"{"query-id":"2","query":"cancel","args":{"cancel-line":2,"cancel-column":0}}"#
    );
    let action = process.advance(
        &mut check,
        BufferEvent::Message(progress("1.1", "full-buffer-finished", None)),
    );
    assert!(matches!(action, BufferAction::Finished));
    assert!(check.result.finished);
}

#[test]
fn full_buffer_timeout_returns_partial_progress() {
    let mut process = started();
    let mut check = query("1");
    let action = process.advance(&mut check, BufferEvent::DeadlinePassed);
    assert!(matches!(action, BufferAction::Cancel { position: (1, 0) }));
    assert!(check.result.timed_out);
    assert!(!check.result.finished);
    let mut later = query("1");
    process.advance(
        &mut later,
        BufferEvent::Message(progress("1.1", "full-buffer-fragment-started", Some(7))),
    );
    let action = process.advance(&mut later, BufferEvent::DeadlinePassed);
    assert!(matches!(action, BufferAction::Cancel { position: (7, 0) }));
    assert_eq!(later.result.fragments.len(), 1);
}

#[test]
fn checks_collect_diagnostics_and_proof_states() {
    let mut result = FullBufferResult::default();
    result.collect(message(
        r#"{"query-id":"1","kind":"response","status":"failure","response":[{"message":"m","number":19,"level":"error","ranges":[]}]}"#,
    ));
    result.collect(message(
        r#"{"query-id":"1","kind":"message","level":"proof-state","contents":{"location":{"fname":"T","beg":[4,1],"end":[4,2]}}}"#,
    ));
    result.collect(progress("1", "full-buffer-fragment-failed", Some(1)));
    result.collect(progress("1", "full-buffer-fragment-lax-ok", Some(2)));
    assert_eq!(result.diagnostics[0].number, Some(19));
    assert_eq!(result.proof_states.len(), 1);
    assert_eq!(result.fragments[0].status, FragmentStatus::Failed);
    assert_eq!(result.fragments[1].status, FragmentStatus::LaxOk);
    assert!(!result.finished);
}

#[test]
fn closed_output_fails_a_check() {
    let mut process = started();
    match process.advance(&mut query("1"), BufferEvent::Closed) {
        BufferAction::Fail(error) => assert_eq!(
            error.message(),
            "F* process exited unexpectedly with code None"
        ),
        _ => panic!("expected a failure"),
    }
}

#[test]
fn processes_without_full_buffer_support_are_refused() {
    let process = FStarProcess::wait_for_protocol_info(StartEvent::Message(message(
        r#"{"kind":"protocol-info","version":2,"features":[]}"#,
    )))
    .unwrap();
    assert_eq!(process.ide_version, 2);
    let error = process.full_buffer_query("", "full", None).unwrap_err();
    assert_eq!(error.message(), "F* does not support full-buffer mode");
    let other = FStarProcess::wait_for_protocol_info(StartEvent::Message(progress("1", "x", None)))
        .unwrap();
    assert!(other.supports_full_buffer);
    assert_eq!(other.ide_version, 3);
    assert!(matches!(
        FStarProcess::wait_for_protocol_info(StartEvent::Closed),
        Err(ProcessError::ProcessExited(None))
    ));
    assert!(matches!(
        FStarProcess::wait_for_protocol_info(StartEvent::DeadlinePassed),
        Err(ProcessError::Timeout)
    ));
}

#[test]
fn starts_are_retried_while_the_executable_is_busy() {
    let config = FStarConfig {
        fstar_exe: Some("/opt/fstar".to_string()),
        ..FStarConfig::default()
    };
    let mut launch: Launch = FStarProcess::spawn(Style::Unix, &config, "/p/T.fst", true);
    assert_eq!(launch.program, "/opt/fstar");
    assert_eq!(launch.directory, "/p");
    assert_eq!(launch.arguments[..2], ["--ide", "/p/T.fst"]);
    let busy = || LaunchFailure::Other {
        os_error: Some(26),
        reason: "busy".to_string(),
    };
    for _ in 0..3 {
        assert!(matches!(
            launch.after_failure(busy(), true),
            LaunchDecision::Retry
        ));
    }
    match launch.after_failure(busy(), true) {
        LaunchDecision::Fail(error) => {
            assert_eq!(error.message(), "Failed to spawn F* process: busy")
        }
        LaunchDecision::Retry => panic!("expected a failure"),
    }
    let mut elsewhere = FStarProcess::spawn(Style::Unix, &config, "/p/T.fst", false);
    assert!(matches!(
        elsewhere.after_failure(busy(), false),
        LaunchDecision::Fail(_)
    ));
    match elsewhere.after_failure(LaunchFailure::NotFound, true) {
        LaunchDecision::Fail(error) => {
            assert_eq!(error.message(), "F* executable not found: /opt/fstar")
        }
        LaunchDecision::Retry => panic!("expected a failure"),
    }
}

#[test]
fn process_errors_have_messages() {
    assert_eq!(
        ProcessError::ProcessExited(Some(-11)).message(),
        "F* process exited unexpectedly with code Some(-11)"
    );
    assert_eq!(
        ProcessError::SendError("pipe".to_string()).message(),
        "Failed to send message to F*: pipe"
    );
    assert_eq!(ProcessError::Timeout.message(), "Query timed out");
}

#[test]
fn lookups_are_answered() {
    let found = FStarProcess::lookup_outcome(Some(message(
        r#"{"query-id":"3","kind":"response","status":"success","response":{"kind":"symbol","name":"x","type":"int","documentation":null,"defined-at":null}}"#,
    )))
    .unwrap();
    match found {
        Some(IdeLookupResponse::Symbol(symbol)) => {
            assert_eq!(symbol.name, "x");
            assert_eq!(symbol.type_info, Some("int".to_string()));
        }
        _ => panic!("expected a symbol"),
    }
    assert!(FStarProcess::lookup_outcome(Some(message(
        r#"{"query-id":"3","kind":"response","status":"failure","response":null}"#
    )))
    .unwrap()
    .is_none());
    assert!(matches!(
        FStarProcess::lookup_outcome(None),
        Err(ProcessError::Timeout)
    ));
    assert!(matches!(
        FStarProcess::vfs_add_outcome(None),
        Err(ProcessError::Timeout)
    ));
}

#[test]
fn only_solvers_below_the_process_are_stopped() {
    let table = "    1     0 init\n  100     1 fstar.exe\n  101   100 sh\n  102   101 z3-4.8.5\n  103     1 z3\nheader line here\n  104   102 z3 extra\n";
    assert_eq!(z3_descendants(100, table), [102, 104]);
    assert_eq!(z3_descendants(7, table), [0u32; 0]);
}

#[test]
fn solvers_are_stopped_before_the_query() {
    let table = "  100     1 fstar.exe\n  102   100 z3-4.8.5\n";
    let (mut course, first) = RestartCourse::new(Some(100), restart_solver_query());
    assert!(matches!(first, RestartAction::List));
    match course.advance(RestartEvent::Listed(Some(table.to_string()))) {
        RestartAction::Stop { pids } => assert_eq!(pids, [102]),
        _ => panic!("expected processes to stop"),
    }
    assert!(matches!(
        course.advance(RestartEvent::Paused),
        RestartAction::Nothing
    ));
    assert!(matches!(
        course.advance(RestartEvent::Stopped),
        RestartAction::Pause
    ));
    match course.advance(RestartEvent::Paused) {
        RestartAction::Send { query } => {
            assert_eq!(json::to_text(query), json::to_text(restart_solver_query()))
        }
        _ => panic!("expected the query"),
    }
    assert!(matches!(
        course.advance(RestartEvent::Sent(Ok(()))),
        RestartAction::Finish
    ));
}

#[test]
fn a_restart_goes_on_without_a_table() {
    let (mut course, _) = RestartCourse::new(Some(100), restart_solver_query());
    assert!(matches!(
        course.advance(RestartEvent::Listed(None)),
        RestartAction::Pause
    ));
    let (mut unknown, first) = RestartCourse::new(None, restart_solver_query());
    assert!(matches!(first, RestartAction::Pause));
    assert!(matches!(
        unknown.advance(RestartEvent::Paused),
        RestartAction::Send { .. }
    ));
    assert!(matches!(
        unknown.advance(RestartEvent::Sent(Err(ProcessError::Timeout))),
        RestartAction::Fail(ProcessError::Timeout)
    ));
}
