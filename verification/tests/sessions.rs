use fstar_mcp::fstar::messages::{FStarRange, IdeProofState};
use fstar_mcp::fstar::process::{FragmentResult, FragmentStatus, FullBufferResult, ProcessError};
use fstar_mcp::fstar::protocol::vfs_add_query;
use fstar_mcp::fstar::FStarConfig;
use fstar_mcp::json::{self, Json};
use fstar_mcp::locations::Style;
use fstar_mcp::session::check::{
    CheckAction, CheckCourse, CheckEvent, LookupAction, LookupCourse, PairAction,
};
use fstar_mcp::session::dependencies::{
    changed_dependencies, dependency_candidates, discover_dependencies, existing_dependencies,
    fstar_dependencies, hash_files, other_files, source_modules,
};
use fstar_mcp::session::digest::{config_fingerprint, hash_bytes};
use fstar_mcp::session::identifier::new_identifier;
use fstar_mcp::session::manager::{owner_key, Creation};
use fstar_mcp::session::moment::Moment;
use fstar_mcp::session::progress::{count_reused_prefix, verified_through_line};
use fstar_mcp::session::{
    content_hash, first_diff_position, Session, SessionError, SessionManager,
};

fn strings(list: &[&str]) -> Vec<String> {
    list.iter().map(|item| item.to_string()).collect()
}

fn pairs(list: &[(&str, &str)]) -> Vec<(String, String)> {
    list.iter()
        .map(|(left, right)| (left.to_string(), right.to_string()))
        .collect()
}

fn moment(seconds: i64) -> Moment {
    Moment::at(seconds, 0).unwrap()
}

fn fragment(line: u32, status: FragmentStatus) -> FragmentResult {
    FragmentResult {
        range: FStarRange {
            fname: "T.fst".to_string(),
            beg: (line, 0),
            end: (line + 1, 0),
        },
        status,
    }
}

fn result(fragments: Vec<FragmentResult>) -> FullBufferResult {
    FullBufferResult {
        fragments,
        finished: true,
        ..FullBufferResult::default()
    }
}

fn session(id: &str, path: &str, owner: Option<&str>, seconds: i64) -> Session {
    Session::new(
        Style::Unix,
        id.to_string(),
        path,
        FStarConfig::default(),
        owner.map(|name| name.to_string()),
        false,
        moment(seconds),
    )
}

#[test]
fn finds_first_diff_position() {
    assert_eq!(first_diff_position("a\nbc", "a\nbd"), Some((2, 1)));
    assert_eq!(first_diff_position("same", "same"), None);
    assert_eq!(first_diff_position("short", "shorter"), Some((1, 5)));
    assert_eq!(first_diff_position("é", "ê"), Some((1, 0)));
}

#[test]
fn shorter_texts_differ_at_their_end() {
    assert_eq!(first_diff_position("a\nb\nc", "a\nb"), Some((2, 1)));
    assert_eq!(first_diff_position("x", ""), Some((1, 0)));
}

#[test]
fn hashes_are_stable() {
    assert_eq!(content_hash("same"), content_hash("same"));
    assert_ne!(content_hash("same"), content_hash("different"));
}

#[test]
fn digests_are_those_of_sha_256() {
    assert_eq!(
        content_hash("abc"),
        "ba7816bf8f01cfea414140de5dae2223b00361a396177a9cb410ff61f20015ad"
    );
    assert_eq!(hash_bytes(&b"abc".to_vec()), content_hash("abc"));
    assert_eq!(content_hash("é"), hash_bytes(&vec![0xc3, 0xa9]));
}

#[test]
fn configurations_are_told_apart() {
    let plain = FStarConfig::default();
    let other = FStarConfig {
        options: strings(&["--x"]),
        ..FStarConfig::default()
    };
    assert_eq!(
        config_fingerprint(&plain),
        content_hash(r#"{"include_dirs":[],"options":[],"fstar_exe":null,"cwd":null}"#)
    );
    assert_eq!(
        config_fingerprint(&other),
        content_hash(r#"{"include_dirs":[],"options":["--x"],"fstar_exe":null,"cwd":null}"#)
    );
}

#[test]
fn identifiers_differ() {
    let first = new_identifier();
    let second = new_identifier();
    assert_eq!(first.len(), 36);
    assert_eq!(&first[14..15], "4");
    assert_ne!(first, second);
}

#[test]
fn moments_have_their_text() {
    assert_eq!(
        Moment::at(0, 5_000_000).unwrap().text,
        "1970-01-01T00:00:00.005+00:00"
    );
    assert_eq!(
        Moment::at(8_210_266_876_799, 0).unwrap().text,
        "+262142-12-31T23:59:59+00:00"
    );
    assert!(Moment::at(8_210_266_876_800, 0).is_none());
    let now = Moment::now();
    assert_eq!(
        now.text,
        chrono::DateTime::from_timestamp(now.seconds, now.nanos)
            .unwrap()
            .to_rfc3339()
    );
    assert!(now.seconds > 1_600_000_000);
    let early = Moment::at(10, 900_000_000).unwrap();
    let late = Moment::at(12, 100_000_000).unwrap();
    assert_eq!(early.seconds_until(&late), 1);
    assert_eq!(late.seconds_until(&early), -1);
    assert!(early.is_before(&late));
    assert!(!late.is_before(&early));
}

#[test]
fn opened_modules_are_found() {
    assert_eq!(
        source_modules("module A\nopen B.C;\n  include D\nopening E\nopen\n"),
        strings(&["B.C", "D"])
    );
}

#[test]
fn candidates_follow_the_roots() {
    let config = FStarConfig {
        include_dirs: strings(&["lib", "/abs"]),
        ..FStarConfig::default()
    };
    let groups = dependency_candidates(Style::Unix, &config, "/p/A.fst", "open X.Y\n");
    assert_eq!(
        groups,
        vec![
            strings(&["/p/X/Y.fst", "/p/X/Y.fsti"]),
            strings(&["/p/lib/X/Y.fst", "/p/lib/X/Y.fsti"]),
            strings(&["/abs/X/Y.fst", "/abs/X/Y.fsti"]),
        ]
    );
}

#[test]
fn candidates_below_verbatim_roots_are_plain() {
    let config = FStarConfig {
        include_dirs: strings(&["..\\lib"]),
        ..FStarConfig::default()
    };
    let groups =
        dependency_candidates(Style::Windows, &config, r"\\?\C:\w\p\A.fst", "open X.Y\n");
    assert_eq!(
        groups,
        vec![
            strings(&[r"\\?\C:\w\p\X\Y.fst", r"\\?\C:\w\p\X\Y.fsti"]),
            strings(&[r"\\?\C:\w\lib\X\Y.fst", r"\\?\C:\w\lib\X\Y.fsti"]),
        ]
    );
}

#[test]
fn the_first_existing_candidate_is_taken() {
    let groups = vec![
        strings(&["/p/X.fst", "/p/X.fsti"]),
        strings(&["/lib/X.fst", "/lib/X.fsti"]),
        strings(&["/p/Y.fst", "/p/Y.fsti"]),
    ];
    let existing = strings(&["/p/Y.fsti", "/lib/X.fsti", "/p/Y.fst"]);
    assert_eq!(
        existing_dependencies(&groups, &existing),
        strings(&["/lib/X.fsti", "/p/Y.fst"])
    );
    assert!(existing_dependencies(&groups, &Vec::new()).is_empty());
}

#[test]
fn dependencies_of_fstar_are_read() {
    let files = fstar_dependencies(Style::Unix, "A.fst.checked: \\\n B.fst, (/lib/C.fsti) ulib\n", "/p");
    assert_eq!(files, strings(&["/p/B.fst", "/lib/C.fsti"]));
    assert_eq!(other_files(Style::Unix, &files, "/p//B.fst"), strings(&["/lib/C.fsti"]));
    assert_eq!(
        discover_dependencies(
            Style::Unix,
            &strings(&["/p/Z.fst"]),
            &files,
            &strings(&["/p/Z.fst", "/p/A.fst"])
        ),
        strings(&["/lib/C.fsti", "/p/A.fst", "/p/B.fst", "/p/Z.fst"])
    );
}

#[test]
fn changes_are_reported() {
    let before = pairs(&[("/a", "1"), ("/b", "2"), ("/c", "3")]);
    let after = pairs(&[("/a", "1"), ("/b", "9"), ("/d", "4")]);
    assert_eq!(
        changed_dependencies(Style::Unix, &before, &after),
        strings(&["/b", "/d", "/c"])
    );
    assert!(changed_dependencies(Style::Unix, &before, &before).is_empty());
    assert_eq!(
        hash_files(
            &strings(&["/a", "/gone"]),
            &vec![Some(b"abc".to_vec()), None]
        ),
        vec![("/a".to_string(), content_hash("abc"))]
    );
}

#[test]
fn verified_prefixes_are_counted() {
    let before = vec![
        fragment(1, FragmentStatus::Verified),
        fragment(3, FragmentStatus::Verified),
    ];
    let after = vec![
        fragment(1, FragmentStatus::Verified),
        fragment(3, FragmentStatus::Failed),
        fragment(9, FragmentStatus::LaxOk),
    ];
    assert_eq!(count_reused_prefix(&before, &after), 1);
    assert_eq!(verified_through_line(&after), 10);
    assert_eq!(verified_through_line(&Vec::new()), 0);
}

#[test]
fn dead_processes_are_replaced_once() {
    let mut course = CheckCourse::new(None, true, false);
    assert!(matches!(course.action(), CheckAction::PollExit));
    assert!(matches!(
        course.advance(CheckEvent::Exited(Ok(false))),
        CheckAction::Reload
    ));
    assert!(matches!(
        course.advance(CheckEvent::Answered(Ok(result(Vec::new())))),
        CheckAction::Check
    ));
    assert!(matches!(
        course.advance(CheckEvent::Answered(Err(ProcessError::ProcessExited(None)))),
        CheckAction::Spawn
    ));
    assert!(!course.restarted);
    assert!(matches!(
        course.advance(CheckEvent::Spawned(Ok(()))),
        CheckAction::Reload
    ));
    assert!(course.restarted);
    assert!(matches!(
        course.advance(CheckEvent::Answered(Ok(result(Vec::new())))),
        CheckAction::Check
    ));
    assert!(matches!(
        course.advance(CheckEvent::Answered(Err(ProcessError::SendError(
            "pipe".to_string()
        )))),
        CheckAction::Fail(ProcessError::SendError(_))
    ));
    assert!(matches!(
        course.advance(CheckEvent::Spawned(Ok(()))),
        CheckAction::Nothing
    ));
}

#[test]
fn steps_send_their_queries() {
    let asked = Some((4, 2));
    assert_eq!(
        CheckAction::Reload.query("full", asked),
        Some(("reload-deps".to_string(), None))
    );
    assert_eq!(
        CheckAction::Check.query("full", asked),
        Some(("full".to_string(), asked))
    );
    assert_eq!(CheckAction::PollExit.query("full", asked), None);
    assert_eq!(
        LookupAction::Reload.query(),
        Some("reload-deps".to_string())
    );
    assert_eq!(LookupAction::Initialize.query(), Some("lax".to_string()));
    assert_eq!(LookupAction::Spawn.query(), None);
}

#[test]
fn other_failures_end_a_check() {
    let mut course = CheckCourse::new(None, false, true);
    assert!(course.restarted);
    assert!(matches!(
        course.advance(CheckEvent::Exited(Ok(true))),
        CheckAction::Spawn
    ));
    assert!(matches!(
        course.advance(CheckEvent::Spawned(Ok(()))),
        CheckAction::Check
    ));
    assert!(matches!(
        course.advance(CheckEvent::Answered(Err(ProcessError::Timeout))),
        CheckAction::Fail(ProcessError::Timeout)
    ));
    let mut plain = CheckCourse::new(None, false, false);
    plain.advance(CheckEvent::Exited(Ok(false)));
    match plain.advance(CheckEvent::Answered(Ok(result(Vec::new())))) {
        CheckAction::Finish(found) => assert!(found.finished),
        _ => panic!("expected a result"),
    }
}

#[test]
fn lookups_prepare_their_process() {
    let mut warm = LookupCourse::new(true, false);
    assert!(matches!(
        warm.advance(CheckEvent::Exited(Ok(false))),
        LookupAction::Ready(None)
    ));
    let mut cold = LookupCourse::new(false, false);
    assert!(matches!(
        cold.advance(CheckEvent::Exited(Ok(false))),
        LookupAction::Initialize
    ));
    assert!(matches!(
        cold.advance(CheckEvent::Answered(Ok(result(Vec::new())))),
        LookupAction::Ready(Some(_))
    ));
    let mut stale = LookupCourse::new(true, true);
    assert!(matches!(
        stale.advance(CheckEvent::Exited(Ok(true))),
        LookupAction::Spawn
    ));
    assert!(matches!(
        stale.advance(CheckEvent::Spawned(Ok(()))),
        LookupAction::Reload
    ));
    assert!(matches!(
        stale.advance(CheckEvent::Answered(Ok(result(Vec::new())))),
        LookupAction::Initialize
    ));
    assert!(matches!(
        stale.advance(CheckEvent::Answered(Err(ProcessError::Timeout))),
        LookupAction::Fail(ProcessError::Timeout)
    ));
}

#[test]
fn an_unchanged_file_is_reused() {
    let mut session = session("s", "/p/T.fst", None, 5);
    let plan = session.check("module T\n", "full");
    assert!(!plan.use_lax);
    assert!(plan.run_fstar_dep);
    let hashes = || pairs(&[("/p/D.fst", "1")]);
    let found = || strings(&["/p/D.fst"]);
    let fragments = || {
        vec![
            fragment(1, FragmentStatus::Verified),
            fragment(3, FragmentStatus::Verified),
        ]
    };
    let run = session.begin_check("module T\n", "full", Some(found()), found(), hashes());
    assert!(matches!(run.course.action(), CheckAction::PollExit));
    assert!(!run.course.reload);
    let first = session.finish_check(run, result(fragments()), Some("h"), Some("h"));
    assert_eq!(first.reused_fragments, 0);
    assert_eq!(first.hint, None);
    assert!(!first.stale);
    assert_eq!(first.verified_through_line, 4);
    assert_eq!(first.content_hash, content_hash("module T\n"));
    assert!(!session.check("module T\n", "full").run_fstar_dep);
    let run = session.begin_check("module T\n", "full", None, found(), hashes());
    let second = session.finish_check(run, result(fragments()), None, Some("h"));
    assert_eq!(second.reused_fragments, 2);
    assert!(second.dependencies_changed.is_empty());
    assert_eq!(session.fragments().len(), 2);
}

#[test]
fn edits_and_changed_dependencies_are_noticed() {
    let mut session = session("s", "/p/T.fst", None, 5);
    let run = session.begin_check("module T\nlet a = 1\n", "full", None, Vec::new(), Vec::new());
    session.finish_check(
        run,
        result(vec![fragment(1, FragmentStatus::Verified)]),
        None,
        None,
    );
    let mut run = session.begin_check(
        "module T\nlet b = 1\n",
        "full",
        None,
        Vec::new(),
        pairs(&[("/p/D.fst", "1")]),
    );
    assert!(matches!(
        run.course.action(),
        CheckAction::Cancel { position: (2, 4) }
    ));
    assert!(run.course.reload);
    session.cache_lost = true;
    session.take_cache_lost(&mut run);
    assert!(!session.cache_lost);
    let outcome = session.finish_check(
        run,
        result(vec![
            fragment(2, FragmentStatus::Failed),
            fragment(5, FragmentStatus::InProgress),
        ]),
        Some("before"),
        Some("after"),
    );
    assert!(outcome.stale);
    assert!(outcome.process_restarted);
    assert_eq!(outcome.dependencies_changed, strings(&["/p/D.fst"]));
    assert_eq!(
        outcome.hint,
        Some(
            "No verified prefix was reused. Prefer targeted edits below the last verified line."
                .to_string()
        )
    );
    let run = session.begin_check(
        "module T\nlet b = 1\n",
        "verify-to-position",
        None,
        Vec::new(),
        Vec::new(),
    );
    assert_eq!(run.dependencies_changed, strings(&["/p/D.fst"]));
    assert!(!run.course.reload);
}

#[test]
fn changes_wait_for_a_reload() {
    let mut session = session("s", "/p/T.fst", None, 5);
    let found = || strings(&["/p/D.fst"]);
    let check = |session: &mut Session, kind: &str, digest: &str| {
        let run = session.begin_check(
            "module T\n",
            kind,
            Some(found()),
            found(),
            pairs(&[("/p/D.fst", digest)]),
        );
        let reload = run.course.reload;
        let outcome = session.finish_check(run, result(Vec::new()), None, None);
        (reload, outcome.dependencies_changed)
    };
    assert_eq!(check(&mut session, "full", "1"), (false, Vec::new()));
    assert_eq!(check(&mut session, "verify-to-position", "2"), (false, found()));
    assert_eq!(check(&mut session, "full", "2"), (true, found()));
    assert_eq!(check(&mut session, "full", "2"), (false, Vec::new()));
}

#[test]
fn fstar_is_asked_once_in_a_session() {
    let mut session = session("s", "/p/T.fst", None, 5);
    assert!(session.check("module T\n", "full").run_fstar_dep);
    let run = session.begin_check(
        "module T\n",
        "full",
        Some(strings(&["/p/D.fst"])),
        strings(&["/p/D.fst"]),
        Vec::new(),
    );
    session.finish_check(run, result(Vec::new()), None, None);
    let plan = session.check("module T\n", "lax");
    assert!(!plan.run_fstar_dep);
    assert_eq!(plan.known_dependencies, strings(&["/p/D.fst"]));
    let mut other = Session::create(Style::Unix, "/p/U.fst", FStarConfig::default(), None, false);
    other.lookup(Some(Vec::new()), Vec::new(), Vec::new());
    assert!(!other.check("module U\n", "full").run_fstar_dep);
}

#[test]
fn the_latest_check_is_shown() {
    let mut session = session("s", "/p/T.fst", None, 5);
    let proof_state = |line: u32| IdeProofState {
        location: fragment(line, FragmentStatus::Verified).range,
        contents: Json::Null,
    };
    let run = session.begin_check("module T\n", "full", None, Vec::new(), Vec::new());
    let mut full = result(vec![
        fragment(1, FragmentStatus::Verified),
        fragment(3, FragmentStatus::Verified),
    ]);
    full.proof_states = vec![proof_state(1)];
    session.finish_check(run, full, None, None);
    assert_eq!(session.fragments().len(), 2);
    assert_eq!(session.proof_states().len(), 1);
    let run = session.begin_check("module T\n", "lax", None, Vec::new(), Vec::new());
    let mut lax = result(vec![fragment(1, FragmentStatus::LaxOk)]);
    lax.proof_states = vec![proof_state(2), proof_state(3)];
    session.finish_check(run, lax, None, None);
    assert_eq!(session.fragments().len(), 1);
    assert_eq!(session.fragments()[0].status, FragmentStatus::LaxOk);
    assert_eq!(session.proof_states().len(), 2);
    let run = session.begin_check("module T\n", "full", None, Vec::new(), Vec::new());
    session.finish_check(run, result(Vec::new()), None, None);
    assert!(session.fragments().is_empty());
    assert!(session.proof_states().is_empty());
}

#[test]
fn rollbacks_come_before_queries() {
    let mut course = CheckCourse::new(Some((2, 4)), true, false);
    assert!(matches!(
        course.action(),
        CheckAction::Cancel { position: (2, 4) }
    ));
    assert!(matches!(
        course.advance(CheckEvent::Exited(Ok(false))),
        CheckAction::Cancel { position: (2, 4) }
    ));
    assert!(matches!(
        course.advance(CheckEvent::RolledBack(Err(ProcessError::SendError(
            "pipe".to_string()
        )))),
        CheckAction::PollExit
    ));
    assert!(matches!(
        course.advance(CheckEvent::Exited(Ok(false))),
        CheckAction::Reload
    ));
    assert!(matches!(
        course.advance(CheckEvent::Answered(Ok(result(Vec::new())))),
        CheckAction::Check
    ));
}

#[test]
fn both_processes_get_a_virtual_file() {
    let session = session("s", "/p/T.fst", None, 5);
    let mut course = session.vfs_add(Some("/p/D.fst"), "module D\n");
    assert_eq!(
        json::to_text(course.query.copy()),
        json::to_text(vfs_add_query(Some("/p/D.fst"), "module D\n"))
    );
    assert!(matches!(course.action(), PairAction::Send { lax: false }));
    assert!(matches!(
        course.advance(Ok(())),
        PairAction::Send { lax: true }
    ));
    assert!(matches!(course.advance(Ok(())), PairAction::Finish));
    assert!(matches!(course.advance(Ok(())), PairAction::Nothing));
    let mut failing = session.restart_solver();
    assert!(matches!(
        failing.advance(Err(ProcessError::Timeout)),
        PairAction::Fail(ProcessError::Timeout)
    ));
    assert!(matches!(failing.action(), PairAction::Nothing));
}

#[test]
fn lax_checks_leave_the_checker_alone() {
    let mut session = session("s", "/p/T.fst", None, 5);
    let run = session.begin_check("module T\n", "lax", None, Vec::new(), Vec::new());
    assert!(run.use_lax);
    session.finish_check(
        run,
        result(vec![fragment(1, FragmentStatus::LaxOk)]),
        None,
        None,
    );
    assert!(session.checker.last_code.is_none());
    assert_eq!(session.fragments().len(), 1);
    assert!(session.proof_states().is_empty());
    let run = session.lookup(None, Vec::new(), pairs(&[("/p/D.fst", "1")]));
    assert!(run.course.initialized);
    assert!(run.course.reload);
    session.finish_preparation(run, "module T\n", Some(result(Vec::new())));
    assert!(session.fragments().is_empty());
    assert!(!session.lookup(None, Vec::new(), pairs(&[("/p/D.fst", "1")])).course.reload);
}

#[test]
fn new_sessions_have_identifiers() {
    let session = Session::create(Style::Unix, "/p/T.fst", FStarConfig::default(), None, true);
    assert_eq!(session.id.len(), 36);
    assert!(session.cache_lost);
}

#[test]
fn sessions_are_found_by_path_and_owner() {
    let mut manager = SessionManager::new(Style::Unix, None, None);
    manager.insert_session(&session("one", "/p/T.fst", Some("client"), 5));
    let config = FStarConfig::default();
    assert_eq!(
        manager.find_by_path("/p/./T.fst", Some("client"), &config),
        Some("one".to_string())
    );
    assert_eq!(manager.find_by_path("/p/T.fst", None, &config), None);
    assert!(manager.get_owned("one", Some("client")).is_ok());
    assert!(matches!(
        manager.get_owned("one", None),
        Err(SessionError::NotOwned { .. })
    ));
    assert!(matches!(
        manager.get_owned("two", None),
        Err(SessionError::NotFound(_))
    ));
    assert_eq!(owner_key(None), "stdio");
    assert_eq!(owner_key(Some("x")), "x");
    match manager.create_session("/p/T.fst", &config, Some("client"), &Vec::new()) {
        Creation::Existing { id } => assert_eq!(id, "one"),
        _ => panic!("expected the session"),
    }
}

#[test]
fn windows_paths_name_one_session() {
    let mut manager = SessionManager::new(Style::Windows, None, None);
    let config = FStarConfig::default();
    manager.insert_session(&Session::new(
        Style::Windows,
        "one".to_string(),
        "C:\\p\\T.fst",
        FStarConfig::default(),
        None,
        false,
        moment(5),
    ));
    assert_eq!(
        manager.find_by_path("c:/p\\.\\T.fst", None, &config),
        Some("one".to_string())
    );
    assert_eq!(manager.find_by_path("C:\\P\\T.fst", None, &config), None);
    let before = pairs(&[("C:\\p\\D.fst", "1")]);
    assert!(
        changed_dependencies(Style::Windows, &before, &pairs(&[("C:/p/D.fst", "1")])).is_empty()
    );
    assert_eq!(
        changed_dependencies(Style::Unix, &before, &pairs(&[("C:/p/D.fst", "1")])).len(),
        2
    );
    assert!(other_files(
        Style::Windows,
        &strings(&["C:/p/T.fst"]),
        "C:\\p\\T.fst"
    )
    .is_empty());
}

#[test]
fn the_least_recently_used_session_makes_room() {
    let mut manager = SessionManager::new(Style::Unix, Some("2"), None);
    manager.insert_session(&session("old", "/p/A.fst", None, 5));
    manager.insert_session(&session("new", "/p/B.fst", None, 9));
    manager.touch("old", &moment(20));
    let config = FStarConfig::default();
    match manager.create_session("/p/C.fst", &config, None, &Vec::new()) {
        Creation::Start { closed, cache_lost } => {
            assert_eq!(closed, strings(&["new"]));
            assert!(!cache_lost);
        }
        _ => panic!("expected a start"),
    }
    manager.insert_session(&session("third", "/p/C.fst", None, 21));
    match manager.create_session("/p/B.fst", &config, None, &strings(&["old"])) {
        Creation::Start { closed, cache_lost } => {
            assert_eq!(closed, strings(&["third"]));
            assert!(cache_lost);
        }
        _ => panic!("expected a start"),
    }
    match manager.create_session("/p/B.fst", &config, None, &Vec::new()) {
        Creation::Start { closed, cache_lost } => {
            assert!(closed.is_empty());
            assert!(!cache_lost);
        }
        _ => panic!("expected a start"),
    }
    manager.insert_session(&session("fourth", "/p/B.fst", None, 30));
    match manager.create_session("/p/E.fst", &config, None, &strings(&["old", "fourth"])) {
        Creation::Start { closed, .. } => assert!(closed.is_empty()),
        _ => panic!("expected a start"),
    }
    assert_eq!(manager.count(), 2);
}

#[test]
fn settings_have_defaults_and_a_minimum() {
    let mut single = SessionManager::new(Style::Unix, Some("0"), Some("nonsense"));
    single.insert_session(&session("a", "/p/A.fst", None, 5));
    assert_eq!(single.evict_lru_if_needed(&Vec::new()), strings(&["a"]));
    single.insert_session(&session("a", "/p/A.fst", None, 5));
    assert!(single.sweep_marked_sessions(&moment(1804)).is_empty());
    assert_eq!(
        single.sweep_marked_sessions(&moment(1805)),
        strings(&["a"])
    );
    let mut four = SessionManager::new(Style::Unix, Some("many"), None);
    for name in ["a", "b", "c", "d"] {
        four.insert_session(&session(name, name, None, 5));
    }
    assert_eq!(four.evict_lru_if_needed(&Vec::new()), strings(&["a"]));
}

#[test]
fn sessions_are_closed_by_their_owners() {
    let mut manager = SessionManager::new(Style::Unix, None, None);
    manager.insert_session(&session("one", "/p/T.fst", Some("client"), 5));
    let error = manager.close_session("one", Some("other"), false).unwrap_err();
    assert_eq!(
        error.message(),
        "Session one belongs to another MCP client"
    );
    assert!(manager.close_session("one", Some("client"), false).is_ok());
    let gone = manager.close_session("one", Some("client"), false).unwrap_err();
    assert_eq!(gone.message(), "Session not found: one");
    manager.insert_session(&session("two", "/p/T.fst", Some("client"), 5));
    assert!(manager.close_session("two", None, true).is_ok());
    assert_eq!(manager.count(), 0);
}

#[test]
fn clients_see_their_own_sessions() {
    let mut manager = SessionManager::new(Style::Unix, None, None);
    manager.insert_session(&session("mine", "/p/A.fst", Some("me"), 5));
    manager.insert_session(&session("other", "/p/B.fst", Some("you"), 5));
    let infos = manager.list_sessions(Some("me"), &moment(12));
    assert_eq!(infos.len(), 1);
    assert_eq!(infos[0].session_id, "mine");
    assert_eq!(infos[0].idle_seconds, 7);
    assert_eq!(infos[0].created_at, "1970-01-01T00:00:05+00:00");
    manager.mark_sessions_for_deletion("me");
    assert!(manager.list_sessions(Some("me"), &moment(12)).is_empty());
    assert_eq!(
        manager.sweep_marked_sessions(&moment(12)),
        strings(&["mine"])
    );
    assert_eq!(manager.close_all(), strings(&["other"]));
    assert_eq!(manager.count(), 0);
}

#[test]
fn owned_sessions_are_not_swept_for_being_idle() {
    let mut manager = SessionManager::new(Style::Unix, None, Some("10"));
    manager.insert_session(&session("owned", "/p/A.fst", Some("me"), 5));
    manager.insert_session(&session("unowned", "/p/B.fst", None, 5));
    assert!(manager.sweep_marked_sessions(&moment(14)).is_empty());
    assert_eq!(
        manager.sweep_marked_sessions(&moment(15)),
        strings(&["unowned"])
    );
    assert!(manager.sweep_marked_sessions(&moment(9999)).is_empty());
    assert_eq!(manager.count(), 1);
}

#[test]
fn different_requests_give_different_sessions() {
    let mut manager = SessionManager::new(Style::Unix, None, None);
    manager.insert_session(&session("one", "/p/A.fst", Some("me"), 5));
    let plain = FStarConfig::default();
    let other = FStarConfig {
        options: strings(&["--x"]),
        ..FStarConfig::default()
    };
    for (path, config, owner) in [
        ("/p/B.fst", &plain, "me"),
        ("/p/A.fst", &other, "me"),
        ("/p/A.fst", &plain, "you"),
    ] {
        assert!(matches!(
            manager.create_session(path, config, Some(owner), &Vec::new()),
            Creation::Start { .. }
        ));
    }
    assert!(matches!(
        manager.create_session("/p/A.fst", &plain, Some("me"), &Vec::new()),
        Creation::Existing { .. }
    ));
}

#[test]
fn timeouts_are_remembered() {
    let mut manager = SessionManager::new(Style::Unix, None, None);
    manager.insert_session(&session("one", "/p/A.fst", None, 5));
    assert_eq!(manager.get_timeout_info("one"), None);
    assert!(manager.expire("one", 30));
    assert!(!manager.expire("one", 30));
    assert_eq!(manager.get_timeout_info("one"), Some(30));
}

#[test]
fn a_second_session_takes_over_its_key() {
    let mut manager = SessionManager::new(Style::Unix, None, None);
    let config = FStarConfig::default();
    manager.insert_session(&session("one", "/p/A.fst", None, 5));
    manager.insert_session(&session("two", "/p/A.fst", None, 6));
    assert_eq!(
        manager.find_by_path("/p/A.fst", None, &config),
        Some("two".to_string())
    );
    assert!(manager.close_session("two", None, false).is_ok());
    assert_eq!(manager.find_by_path("/p/A.fst", None, &config), None);
    assert_eq!(manager.count(), 1);
}

#[test]
fn session_errors_have_messages() {
    assert_eq!(
        SessionError::CreateError(ProcessError::Timeout).message(),
        "Failed to create session: Query timed out"
    );
    assert_eq!(
        SessionError::ConfigError(fstar_mcp::fstar::ConfigError::InvalidMakeOutput(
            "x".to_string()
        ))
        .message(),
        "Config error: Invalid shell-like output from make: x"
    );
}
