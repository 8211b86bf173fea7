//! What a session remembers of its file, and what a check makes of it.
use crate::fstar::config::{FStarConfig, FStarConfigView};
use crate::fstar::messages::{self, IdeProofState, IdeProofStateView};
use crate::fstar::process::{
    self, FragmentResult, FragmentView, FullBufferResult, FullBufferView,
};
use crate::fstar::protocol;
use crate::locations::Style;
use crate::session::check::{
    self, CheckCourse, LookupCourse, LookupPhase, PairCourse, PairPhase,
};
use crate::session::dependencies;
use crate::session::digest;
use crate::session::identifier;
use crate::session::moment::{self, Moment, MomentView};
use crate::session::progress;
use crate::text;
use vstd::prelude::*;

verus! {

/// What is remembered of the last check of one of the two processes.
#[derive(Debug)]
pub struct ProcessState {
    pub last_code: Option<String>,
    pub last_fragments: Vec<FragmentResult>,
    pub dependency_hashes: Vec<(String, String)>,
    pub dependencies: Vec<String>,
    pub dependency_scan_complete: bool,
}

/// The model of what is remembered of a check.
pub struct ProcessStateView {
    pub last_code: Option<Seq<char>>,
    pub last_fragments: Seq<FragmentView>,
    pub dependency_hashes: Seq<(Seq<char>, Seq<char>)>,
    pub dependencies: Seq<Seq<char>>,
    pub dependency_scan_complete: bool,
}

impl View for ProcessState {
    type V = ProcessStateView;

    open spec fn view(&self) -> ProcessStateView {
        ProcessStateView {
            last_code: text::opt_text(self.last_code),
            last_fragments: process::fragments_view(self.last_fragments@),
            dependency_hashes: dependencies::hashes_view(self.dependency_hashes@),
            dependencies: text::texts(self.dependencies@),
            dependency_scan_complete: self.dependency_scan_complete,
        }
    }
}

/// What is remembered before the first check.
pub open spec fn unchecked() -> ProcessStateView {
    ProcessStateView {
        last_code: None,
        last_fragments: Seq::empty(),
        dependency_hashes: Seq::empty(),
        dependencies: Seq::empty(),
        dependency_scan_complete: false,
    }
}

impl Default for ProcessState {
    fn default() -> (state: ProcessState)
        ensures
            state@ == unchecked(),
    {
        let state = ProcessState {
            last_code: None,
            last_fragments: Vec::new(),
            dependency_hashes: Vec::new(),
            dependencies: Vec::new(),
            dependency_scan_complete: false,
        };
        assert(state@.last_fragments =~= Seq::empty());
        assert(state@.dependency_hashes =~= Seq::empty());
        assert(state@.dependencies =~= Seq::empty());
        state
    }
}

/// A session: a file with its configuration, and what its two processes have checked.
#[derive(Debug)]
pub struct Session {
    /// How the system writes paths.
    pub style: Style,
    pub id: String,
    pub file_path: String,
    pub config: FStarConfig,
    pub created_at: Moment,
    pub mcp_session_id: Option<String>,
    pub proof_states: Vec<IdeProofState>,
    pub checker: ProcessState,
    pub lax: ProcessState,
    /// True when the latest check was one of the lax process, or there was none.
    pub latest_lax: bool,
    /// The dependencies that F* has named, once it has been asked.
    pub fstar_dependencies: Option<Vec<String>>,
    pub cache_lost: bool,
}

/// The model of a session.
pub struct SessionView {
    pub style: Style,
    pub id: Seq<char>,
    pub file_path: Seq<char>,
    pub config: FStarConfigView,
    pub created_at: MomentView,
    pub mcp_session_id: Option<Seq<char>>,
    pub proof_states: Seq<IdeProofStateView>,
    pub checker: ProcessStateView,
    pub lax: ProcessStateView,
    pub latest_lax: bool,
    pub fstar_dependencies: Option<Seq<Seq<char>>>,
    pub cache_lost: bool,
}

/// The model of a list of files that may be missing.
pub open spec fn opt_files(files: Option<Vec<String>>) -> Option<Seq<Seq<char>>> {
    match files {
        Some(list) => Some(text::texts(list@)),
        None => None,
    }
}

impl View for Session {
    type V = SessionView;

    open spec fn view(&self) -> SessionView {
        SessionView {
            style: self.style,
            id: self.id@,
            file_path: self.file_path@,
            config: self.config@,
            created_at: self.created_at@,
            mcp_session_id: text::opt_text(self.mcp_session_id),
            proof_states: messages::proof_states_view(self.proof_states@),
            checker: self.checker@,
            lax: self.lax@,
            latest_lax: self.latest_lax,
            fstar_dependencies: opt_files(self.fstar_dependencies),
            cache_lost: self.cache_lost,
        }
    }
}

/// True for the kinds of checks that the lax process does.
pub open spec fn is_lax_kind(kind: Seq<char>) -> bool {
    kind == "lax"@ || kind == "lax-to-position"@
}

/// True for the kinds of checks before which changed dependencies are reloaded.
pub open spec fn is_reloading_kind(kind: Seq<char>) -> bool {
    kind == "full"@ || kind == "lax"@
}

/// What a session remembers of the process that does a check.
pub open spec fn remembered(session: SessionView, use_lax: bool) -> ProcessStateView {
    if use_lax {
        session.lax
    } else {
        session.checker
    }
}

/// A session that remembers something else of the process that does a check.
pub open spec fn remembering(
    session: SessionView,
    use_lax: bool,
    state: ProcessStateView,
) -> SessionView {
    if use_lax {
        SessionView { lax: state, ..session }
    } else {
        SessionView { checker: state, ..session }
    }
}

/// A session that has never been checked.
pub open spec fn new_session(
    style: Style,
    id: Seq<char>,
    file_path: Seq<char>,
    config: FStarConfigView,
    created_at: MomentView,
    mcp_session_id: Option<Seq<char>>,
    cache_lost: bool,
) -> SessionView {
    SessionView {
        style,
        id,
        file_path,
        config,
        created_at,
        mcp_session_id,
        proof_states: Seq::empty(),
        checker: unchecked(),
        lax: unchecked(),
        latest_lax: true,
        fstar_dependencies: None,
        cache_lost,
    }
}

/// The dependencies that are known before a check of one of the processes: those of its last check,
/// or those that F* has named before.
pub open spec fn known_files(session: SessionView, use_lax: bool) -> Seq<Seq<char>> {
    let state = remembered(session, use_lax);
    if state.dependency_scan_complete {
        state.dependencies
    } else {
        match session.fstar_dependencies {
            Some(files) => files,
            None => Seq::empty(),
        }
    }
}

/// The session that knows what F* has answered, where it has been asked just now.
pub open spec fn learned(session: SessionView, asked: Option<Seq<Seq<char>>>) -> SessionView {
    match session.fstar_dependencies {
        Some(_) => session,
        None => SessionView { fstar_dependencies: asked, ..session },
    }
}

/// True for the kinds of checks that the lax process does.
pub fn uses_lax(kind: &str) -> (lax: bool)
    ensures
        lax == is_lax_kind(kind@),
{
    text::same(kind, "lax") || text::same(kind, "lax-to-position")
}

/// A copy of proof states.
pub fn copy_proof_states(states: &Vec<IdeProofState>) -> (copy: Vec<IdeProofState>)
    ensures
        messages::proof_states_view(copy@) == messages::proof_states_view(states@),
{
    let mut copy: Vec<IdeProofState> = Vec::new();
    let mut index: usize = 0;
    while index < states.len()
        invariant
            index <= states@.len(),
            copy@.len() == index,
            forall|i: int| 0 <= i < index ==> (#[trigger] copy@[i])@ == states@[i]@,
        decreases states@.len() - index,
    {
        copy.push(states[index].copy());
        index += 1;
    }
    assert(messages::proof_states_view(copy@) =~= messages::proof_states_view(states@));
    copy
}

/// What has to be found out before a check.
#[derive(Debug)]
pub struct CheckPlan {
    pub use_lax: bool,
    pub content_hash: String,
    pub known_dependencies: Vec<String>,
    /// True when F* is to be asked for the dependencies.
    pub run_fstar_dep: bool,
}

/// A check that is under way.
#[derive(Debug)]
pub struct CheckRun {
    pub use_lax: bool,
    pub content_hash: String,
    pub previous_fragments: Vec<FragmentResult>,
    pub dependencies_changed: Vec<String>,
    pub dependencies: Vec<String>,
    pub dependency_hashes: Vec<(String, String)>,
    pub course: CheckCourse,
}

/// The model of a check that is under way.
pub struct CheckRunView {
    pub use_lax: bool,
    pub content_hash: Seq<char>,
    pub previous_fragments: Seq<FragmentView>,
    pub dependencies_changed: Seq<Seq<char>>,
    pub dependencies: Seq<Seq<char>>,
    pub dependency_hashes: Seq<(Seq<char>, Seq<char>)>,
    pub course: CheckCourse,
}

impl View for CheckRun {
    type V = CheckRunView;

    open spec fn view(&self) -> CheckRunView {
        CheckRunView {
            use_lax: self.use_lax,
            content_hash: self.content_hash@,
            previous_fragments: process::fragments_view(self.previous_fragments@),
            dependencies_changed: text::texts(self.dependencies_changed@),
            dependencies: text::texts(self.dependencies@),
            dependency_hashes: dependencies::hashes_view(self.dependency_hashes@),
            course: self.course,
        }
    }
}

/// From where on a process that has checked `last_code` has to forget what it has checked.
pub open spec fn rollback_for(last_code: Option<Seq<char>>, code: Seq<char>) -> Option<(u32, u32)> {
    match last_code {
        Some(previous) => progress::diff_position(previous, code),
        None => None,
    }
}

/// The dependencies that have changed since the last check, none before the first one.
pub open spec fn changed_since(
    style: Style,
    state: ProcessStateView,
    hashes: Seq<(Seq<char>, Seq<char>)>,
) -> Seq<Seq<char>> {
    match state.last_code {
        Some(_) => dependencies::changed_files(style, state.dependency_hashes, hashes),
        None => Seq::empty(),
    }
}

/// The check that begins with the dependencies and digests of now.
pub open spec fn begun_check(
    session: SessionView,
    code: Seq<char>,
    kind: Seq<char>,
    found: Seq<Seq<char>>,
    hashes: Seq<(Seq<char>, Seq<char>)>,
) -> CheckRunView {
    let state = remembered(session, is_lax_kind(kind));
    let changed = changed_since(session.style, state, hashes);
    CheckRunView {
        use_lax: is_lax_kind(kind),
        content_hash: digest::hash_of(code),
        previous_fragments: state.last_fragments,
        dependencies_changed: changed,
        dependencies: found,
        dependency_hashes: hashes,
        course: CheckCourse {
            phase: check::first_phase(rollback_for(state.last_code, code)),
            reload: changed.len() > 0 && is_reloading_kind(kind),
            restarted: false,
        },
    }
}

/// The session of which a check has begun.
pub open spec fn session_in_check(
    session: SessionView,
    code: Seq<char>,
    kind: Seq<char>,
    asked: Option<Seq<Seq<char>>>,
) -> SessionView {
    let use_lax = is_lax_kind(kind);
    remembering(
        learned(session, asked),
        use_lax,
        ProcessStateView { last_code: Some(code), ..remembered(session, use_lax) },
    )
}

/// What a check has found.
#[derive(Debug)]
pub struct SessionCheckResult {
    pub result: FullBufferResult,
    pub content_hash: String,
    pub stale: bool,
    pub reused_fragments: usize,
    pub verified_through_line: u32,
    pub hint: Option<String>,
    pub process_restarted: bool,
    pub dependencies_changed: Vec<String>,
}

/// The model of what a check has found.
pub struct SessionCheckView {
    pub result: FullBufferView,
    pub content_hash: Seq<char>,
    pub stale: bool,
    pub reused_fragments: nat,
    pub verified_through_line: u32,
    pub hint: Option<Seq<char>>,
    pub process_restarted: bool,
    pub dependencies_changed: Seq<Seq<char>>,
}

impl View for SessionCheckResult {
    type V = SessionCheckView;

    open spec fn view(&self) -> SessionCheckView {
        SessionCheckView {
            result: self.result@,
            content_hash: self.content_hash@,
            stale: self.stale,
            reused_fragments: self.reused_fragments as nat,
            verified_through_line: self.verified_through_line,
            hint: text::opt_text(self.hint),
            process_restarted: self.process_restarted,
            dependencies_changed: text::texts(self.dependencies_changed@),
        }
    }
}

/// True when the file has changed on disk while it was checked. Nothing is known of that where
/// the text did not come from the disk, or the file can no longer be read.
pub open spec fn is_stale(before: Option<Seq<char>>, after: Option<Seq<char>>) -> bool {
    before is Some && after is Some && before != after
}

/// The advice for an edit after which nothing could be reused.
pub open spec fn reuse_hint(
    previous: Seq<FragmentView>,
    current: Seq<FragmentView>,
) -> Option<Seq<char>> {
    if previous.len() > 0 && progress::reused_prefix(previous, current) == 0 && current.len() > 1 {
        Some(
            "No verified prefix was reused. Prefer targeted edits below the last verified line."@,
        )
    } else {
        None
    }
}

/// What a check has found, from the result of its process.
pub open spec fn check_outcome(
    run: CheckRunView,
    result: FullBufferView,
    disk_hash: Option<Seq<char>>,
    current_hash: Option<Seq<char>>,
) -> SessionCheckView {
    SessionCheckView {
        result,
        content_hash: run.content_hash,
        stale: is_stale(disk_hash, current_hash),
        reused_fragments: progress::reused_prefix(run.previous_fragments, result.fragments),
        verified_through_line: progress::last_passed_line(result.fragments),
        hint: reuse_hint(run.previous_fragments, result.fragments),
        process_restarted: run.course.restarted,
        dependencies_changed: run.dependencies_changed,
    }
}

/// The digests of the dependencies that a process has loaded once a check is over: those of now,
/// unless they had changed and were not reloaded.
pub open spec fn loaded_hashes(state: ProcessStateView, run: CheckRunView) -> Seq<
    (Seq<char>, Seq<char>),
> {
    if run.dependencies_changed.len() > 0 && !run.course.reload {
        state.dependency_hashes
    } else {
        run.dependency_hashes
    }
}

/// The session after a check.
pub open spec fn session_after_check(
    session: SessionView,
    run: CheckRunView,
    result: FullBufferView,
) -> SessionView {
    let state = ProcessStateView {
        last_code: remembered(session, run.use_lax).last_code,
        last_fragments: result.fragments,
        dependency_hashes: loaded_hashes(remembered(session, run.use_lax), run),
        dependencies: run.dependencies,
        dependency_scan_complete: true,
    };
    remembering(
        SessionView {
            proof_states: result.proof_states,
            latest_lax: run.use_lax,
            ..session
        },
        run.use_lax,
        state,
    )
}

/// The preparation of a lookup that is under way.
#[derive(Debug)]
pub struct LookupRun {
    pub dependencies: Vec<String>,
    pub dependency_hashes: Vec<(String, String)>,
    pub course: LookupCourse,
}

/// The session once its lax process has been prepared for a lookup.
pub open spec fn session_after_preparation(
    session: SessionView,
    run: LookupRun,
    code: Seq<char>,
    result: Option<FullBufferView>,
) -> SessionView {
    SessionView {
        lax: ProcessStateView {
            last_code: Some(code),
            last_fragments: match result {
                Some(checked) => checked.fragments,
                None => session.lax.last_fragments,
            },
            dependency_hashes: dependencies::hashes_view(run.dependency_hashes@),
            dependencies: text::texts(run.dependencies@),
            dependency_scan_complete: true,
        },
        ..session
    }
}

impl Session {
    /// A session for a file that has not been checked yet.
    pub fn new(
        style: Style,
        id: String,
        file_path: &str,
        config: FStarConfig,
        mcp_session_id: Option<String>,
        cache_lost: bool,
        now: Moment,
    ) -> (session: Session)
        ensures
            session@ == new_session(
                style,
                id@,
                file_path@,
                config@,
                now@,
                text::opt_text(mcp_session_id),
                cache_lost,
            ),
    {
        let session = Session {
            style,
            id,
            file_path: file_path.to_owned(),
            config,
            created_at: now,
            mcp_session_id,
            proof_states: Vec::new(),
            checker: ProcessState::default(),
            lax: ProcessState::default(),
            latest_lax: true,
            fstar_dependencies: None,
            cache_lost,
        };
        assert(session@.proof_states =~= Seq::empty());
        session
    }

    /// A session for a file under a new identifier and with the time of now.
    pub fn create(
        style: Style,
        file_path: &str,
        config: FStarConfig,
        mcp_session_id: Option<String>,
        cache_lost: bool,
    ) -> (session: Session)
        ensures
            identifier::is_identifier(session@.id),
            moment::is_moment(session@.created_at),
            session@ == new_session(
                style,
                session@.id,
                file_path@,
                config@,
                session@.created_at,
                text::opt_text(mcp_session_id),
                cache_lost,
            ),
    {
        Session::new(
            style,
            identifier::new_identifier(),
            file_path,
            config,
            mcp_session_id,
            cache_lost,
            Moment::now(),
        )
    }

    /// What has to be found out before a check: the dependencies that F* names are asked for once
    /// in a session.
    pub fn check(&self, code: &str, requested_kind: &str) -> (plan: CheckPlan)
        ensures
            plan.use_lax == is_lax_kind(requested_kind@),
            plan.content_hash@ == digest::hash_of(code@),
            text::texts(plan.known_dependencies@) == known_files(self@, plan.use_lax),
            plan.run_fstar_dep == (self@.fstar_dependencies is None),
    {
        let use_lax = uses_lax(requested_kind);
        let state = if use_lax {
            &self.lax
        } else {
            &self.checker
        };
        let known_dependencies = if state.dependency_scan_complete {
            text::copy_list(&state.dependencies)
        } else {
            match &self.fstar_dependencies {
                Some(files) => text::copy_list(files),
                None => Vec::new(),
            }
        };
        assert(text::texts(known_dependencies@) =~= known_files(self@, use_lax));
        CheckPlan {
            use_lax,
            content_hash: digest::content_hash(code),
            known_dependencies,
            run_fstar_dep: self.fstar_dependencies.is_none(),
        }
    }

    /// Keeps what F* has answered, where it has been asked just now.
    fn learn(&mut self, asked: Option<Vec<String>>)
        ensures
            final(self)@ == learned(old(self)@, opt_files(asked)),
    {
        if self.fstar_dependencies.is_none() {
            self.fstar_dependencies = asked;
        }
    }

    /// Begins a check with the dependencies and digests of now. `asked` is what F* has answered
    /// where it has been asked for this check.
    pub fn begin_check(
        &mut self,
        code: &str,
        requested_kind: &str,
        asked: Option<Vec<String>>,
        found: Vec<String>,
        hashes: Vec<(String, String)>,
    ) -> (run: CheckRun)
        ensures
            run@ == begun_check(
                old(self)@,
                code@,
                requested_kind@,
                text::texts(found@),
                dependencies::hashes_view(hashes@),
            ),
            final(self)@ == session_in_check(
                old(self)@,
                code@,
                requested_kind@,
                opt_files(asked),
            ),
    {
        let use_lax = uses_lax(requested_kind);
        let state = if use_lax {
            &self.lax
        } else {
            &self.checker
        };
        let ghost before = state@;
        let (rollback, changed) = match &state.last_code {
            Some(previous) => (
                progress::first_diff_position(previous.as_str(), code),
                dependencies::changed_dependencies(
                    self.style,
                    &state.dependency_hashes,
                    &hashes,
                ),
            ),
            None => (None, Vec::new()),
        };
        assert(text::texts(changed@) =~= changed_since(
            self.style,
            before,
            dependencies::hashes_view(hashes@),
        ));
        let reload = changed.len() > 0 && (text::same(requested_kind, "full") || text::same(
            requested_kind,
            "lax",
        ));
        assert(text::texts(changed@).len() == changed@.len());
        let run = CheckRun {
            use_lax,
            content_hash: digest::content_hash(code),
            previous_fragments: process::copy_fragments(&state.last_fragments),
            dependencies_changed: changed,
            dependencies: found,
            dependency_hashes: hashes,
            course: CheckCourse::new(rollback, reload, false),
        };
        self.learn(asked);
        if use_lax {
            self.lax.last_code = Some(code.to_owned());
        } else {
            self.checker.last_code = Some(code.to_owned());
        }
        run
    }

    /// Takes the note that an earlier session for the file has been closed to make room: the check
    /// reports it, and no later one does.
    pub fn take_cache_lost(&mut self, run: &mut CheckRun)
        ensures
            final(self)@ == (SessionView { cache_lost: false, ..old(self)@ }),
            final(run)@ == (CheckRunView {
                course: CheckCourse { restarted: old(self)@.cache_lost, ..old(run)@.course },
                ..old(run)@
            }),
    {
        run.course.restarted = self.cache_lost;
        self.cache_lost = false;
    }

    /// Ends a check with the result of its process, the digest of the file when it was read, and
    /// that of the file now.
    pub fn finish_check(
        &mut self,
        run: CheckRun,
        result: FullBufferResult,
        disk_hash: Option<&str>,
        current_hash: Option<&str>,
    ) -> (outcome: SessionCheckResult)
        ensures
            outcome@ == check_outcome(
                run@,
                result@,
                text::opt_str_text(disk_hash),
                text::opt_str_text(current_hash),
            ),
            final(self)@ == session_after_check(old(self)@, run@, result@),
            shown_fragments(final(self)@) == result@.fragments,
            final(self)@.proof_states == result@.proof_states,
    {
        let reused_fragments: usize = progress::count_reused_prefix(
            &run.previous_fragments,
            &result.fragments,
        );
        let hint = if run.previous_fragments.len() > 0 && reused_fragments == 0
            && result.fragments.len() > 1 {
            Some(
                "No verified prefix was reused. Prefer targeted edits below the last verified line.".to_owned(),
            )
        } else {
            None
        };
        assert(run@.previous_fragments.len() == run.previous_fragments@.len());
        assert(result@.fragments.len() == result.fragments@.len());
        let stale = match (disk_hash, current_hash) {
            (Some(before), Some(after)) => !text::same(before, after),
            _ => false,
        };
        let fragments = process::copy_fragments(&result.fragments);
        let keeps_hashes = run.dependencies_changed.len() > 0 && !run.course.reload;
        assert(run@.dependencies_changed.len() == run.dependencies_changed@.len());
        self.proof_states = copy_proof_states(&result.proof_states);
        self.latest_lax = run.use_lax;
        if run.use_lax {
            self.lax.last_fragments = fragments;
            if !keeps_hashes {
                self.lax.dependency_hashes = run.dependency_hashes;
            }
            self.lax.dependencies = run.dependencies;
            self.lax.dependency_scan_complete = true;
        } else {
            self.checker.last_fragments = fragments;
            if !keeps_hashes {
                self.checker.dependency_hashes = run.dependency_hashes;
            }
            self.checker.dependencies = run.dependencies;
            self.checker.dependency_scan_complete = true;
        }
        SessionCheckResult {
            content_hash: run.content_hash,
            stale,
            reused_fragments,
            verified_through_line: progress::verified_through_line(&result.fragments),
            hint,
            process_restarted: run.course.restarted,
            dependencies_changed: run.dependencies_changed,
            result,
        }
    }

    /// Begins the preparation of a lookup with the dependencies and digests of now. `asked` is what
    /// F* has answered where it has been asked for this lookup.
    pub fn lookup(
        &mut self,
        asked: Option<Vec<String>>,
        found: Vec<String>,
        hashes: Vec<(String, String)>,
    ) -> (run: LookupRun)
        ensures
            final(self)@ == learned(old(self)@, opt_files(asked)),
            text::texts(run.dependencies@) == text::texts(found@),
            dependencies::hashes_view(run.dependency_hashes@) == dependencies::hashes_view(hashes@),
            run.course == (LookupCourse {
                phase: LookupPhase::Polling,
                initialized: old(self)@.lax.dependency_scan_complete,
                reload: old(self)@.lax.dependency_scan_complete && dependencies::changed_files(
                    old(self)@.style,
                    old(self)@.lax.dependency_hashes,
                    dependencies::hashes_view(hashes@),
                ).len() > 0,
                restarted: false,
            }),
    {
        let initialized = self.lax.dependency_scan_complete;
        let changed = dependencies::changed_dependencies(
            self.style,
            &self.lax.dependency_hashes,
            &hashes,
        );
        assert(text::texts(changed@).len() == changed@.len());
        self.learn(asked);
        LookupRun {
            dependencies: found,
            dependency_hashes: hashes,
            course: LookupCourse::new(initialized, initialized && changed.len() > 0),
        }
    }

    /// Remembers what the preparation of a lookup has brought.
    pub fn finish_preparation(
        &mut self,
        run: LookupRun,
        code: &str,
        result: Option<FullBufferResult>,
    )
        ensures
            final(self)@ == session_after_preparation(
                old(self)@,
                run,
                code@,
                check::opt_result(result),
            ),
    {
        self.lax.last_code = Some(code.to_owned());
        self.lax.dependencies = run.dependencies;
        self.lax.dependency_hashes = run.dependency_hashes;
        self.lax.dependency_scan_complete = true;
        match result {
            Some(checked) => self.lax.last_fragments = checked.fragments,
            None => {},
        }
    }

    /// Begins to add a file to the virtual file systems of both processes.
    pub fn vfs_add(&self, filename: Option<&str>, contents: &str) -> (course: PairCourse)
        ensures
            course.phase == PairPhase::Checker,
            course.query@ == protocol::vfs_add_value(text::opt_str_text(filename), contents@),
    {
        PairCourse::new(protocol::vfs_add_query(filename, contents))
    }

    /// Begins to restart the solvers of both processes.
    pub fn restart_solver(&self) -> (course: PairCourse)
        ensures
            course.phase == PairPhase::Checker,
            course.query@ == protocol::restart_solver_value(),
    {
        PairCourse::new(protocol::restart_solver_query())
    }

    /// The proof states of the latest check.
    pub fn proof_states(&self) -> (states: Vec<IdeProofState>)
        ensures
            messages::proof_states_view(states@) == self@.proof_states,
    {
        copy_proof_states(&self.proof_states)
    }

    /// The fragments of the latest check.
    pub fn fragments(&self) -> (fragments: Vec<FragmentResult>)
        ensures
            process::fragments_view(fragments@) == shown_fragments(self@),
    {
        if self.latest_lax {
            process::copy_fragments(&self.lax.last_fragments)
        } else {
            process::copy_fragments(&self.checker.last_fragments)
        }
    }
}

/// The fragments that a session shows: those of the process that has done the latest check.
pub open spec fn shown_fragments(session: SessionView) -> Seq<FragmentView> {
    remembered(session, session.latest_lax).last_fragments
}

/// The session after a whole check of a kind that has come to its end.
pub open spec fn session_checked(
    session: SessionView,
    code: Seq<char>,
    kind: Seq<char>,
    asked: Option<Seq<Seq<char>>>,
    found: Seq<Seq<char>>,
    hashes: Seq<(Seq<char>, Seq<char>)>,
    result: FullBufferView,
) -> SessionView {
    session_after_check(
        session_in_check(session, code, kind, asked),
        begun_check(session, code, kind, found, hashes),
        result,
    )
}

/// The second of two checks of the same text with the same dependencies rolls nothing back; where
/// the first one has loaded them, it reloads nothing, and where its process reports the same
/// fragments, all of them are reused.
pub proof fn law_unchanged_file_is_reused(
    session: SessionView,
    code: Seq<char>,
    kind: Seq<char>,
    asked: Option<Seq<Seq<char>>>,
    found: Seq<Seq<char>>,
    hashes: Seq<(Seq<char>, Seq<char>)>,
    result: FullBufferView,
)
    requires
        dependencies::distinct_files(session.style, hashes),
    ensures
        ({
            let first = begun_check(session, code, kind, found, hashes);
            let second = begun_check(
                session_checked(session, code, kind, asked, found, hashes, result),
                code,
                kind,
                found,
                hashes,
            );
            &&& second.course.phase is Polling
            &&& first.dependencies_changed.len() == 0 || first.course.reload
                ==> second.dependencies_changed.len() == 0 && !second.course.reload
            &&& check_outcome(second, result, None, None).reused_fragments == result.fragments.len()
            &&& check_outcome(second, result, None, None).hint is None
        }),
{
    let second = begun_check(
        session_checked(session, code, kind, asked, found, hashes, result),
        code,
        kind,
        found,
        hashes,
    );
    dependencies::law_every_change_is_reported(session.style, hashes, hashes);
    progress::law_reused_fragments_are_the_same(result.fragments, result.fragments);
    assert(second.previous_fragments == result.fragments);
}

/// After a check of any kind a session shows the fragments and the proof states of that check,
/// whatever it has shown before.
pub proof fn law_the_latest_check_is_shown(
    session: SessionView,
    code: Seq<char>,
    kind: Seq<char>,
    asked: Option<Seq<Seq<char>>>,
    found: Seq<Seq<char>>,
    hashes: Seq<(Seq<char>, Seq<char>)>,
    result: FullBufferView,
)
    ensures
        ({
            let after = session_checked(session, code, kind, asked, found, hashes, result);
            shown_fragments(after) == result.fragments && after.proof_states == result.proof_states
        }),
{
}

/// A check of one of the two processes leaves what is remembered of the other as it was, and the
/// session keeps its identity.
pub proof fn law_processes_are_independent(
    session: SessionView,
    run: CheckRunView,
    result: FullBufferView,
)
    ensures
        remembered(session_after_check(session, run, result), !run.use_lax) == remembered(
            session,
            !run.use_lax,
        ),
        session_after_check(session, run, result).id == session.id,
        session_after_check(session, run, result).mcp_session_id == session.mcp_session_id,
{
}

/// The kinds of checks are different.
proof fn lemma_kinds()
    ensures
        !is_lax_kind("full"@),
        !is_lax_kind("verify-to-position"@),
        is_reloading_kind("full"@),
        !is_reloading_kind("verify-to-position"@),
        !is_reloading_kind("lax-to-position"@),
{
    reveal_strlit("full");
    reveal_strlit("lax");
    reveal_strlit("lax-to-position");
    reveal_strlit("verify-to-position");
    assert("full"@.len() == 4 && "lax"@.len() == 3 && "lax-to-position"@.len() == 15
        && "verify-to-position"@.len() == 18);
}

/// Where a dependency has changed, is new or is gone since the process has loaded its
/// dependencies, the next full check reloads them and lists the changes; where none has, it does
/// neither.
pub proof fn law_changed_dependencies_are_reloaded(
    session: SessionView,
    code: Seq<char>,
    found: Seq<Seq<char>>,
    hashes: Seq<(Seq<char>, Seq<char>)>,
)
    requires
        session.checker.last_code is Some,
        dependencies::distinct_files(session.style, session.checker.dependency_hashes),
        dependencies::distinct_files(session.style, hashes),
    ensures
        ({
            let run = begun_check(session, code, "full"@, found, hashes);
            let unchanged = forall|path: Seq<char>| #[trigger]
                dependencies::hash_for(session.style, session.checker.dependency_hashes, path)
                    == dependencies::hash_for(session.style, hashes, path);
            &&& run.course.reload == !unchanged
            &&& (run.dependencies_changed.len() > 0) == !unchanged
        }),
{
    lemma_kinds();
    dependencies::law_every_change_is_reported(session.style, session.checker.dependency_hashes, hashes);
}

/// A change that a check has seen and not reloaded is not forgotten: the process is remembered to
/// have the dependencies of before, so the next full check that sees the same files as that check
/// reloads them and lists the same changes.
pub proof fn law_changes_wait_for_a_reload(
    session: SessionView,
    code: Seq<char>,
    kind: Seq<char>,
    asked: Option<Seq<Seq<char>>>,
    found: Seq<Seq<char>>,
    hashes: Seq<(Seq<char>, Seq<char>)>,
    result: FullBufferView,
    next_code: Seq<char>,
    next_found: Seq<Seq<char>>,
)
    requires
        kind != "lax"@,
        kind != "lax-to-position"@,
        kind != "full"@,
        begun_check(session, code, kind, found, hashes).dependencies_changed.len() > 0,
    ensures
        ({
            let seen = begun_check(session, code, kind, found, hashes);
            let after = session_checked(session, code, kind, asked, found, hashes, result);
            let next = begun_check(after, next_code, "full"@, next_found, hashes);
            &&& after.checker.dependency_hashes == session.checker.dependency_hashes
            &&& next.course.reload
            &&& next.dependencies_changed == seen.dependencies_changed
        }),
{
    lemma_kinds();
}

/// F* is asked for the dependencies once in a session: once it has answered, no later check or
/// lookup of either process asks, and its answer is known to the process that has not been checked.
pub proof fn law_dependencies_are_asked_for_once(
    session: SessionView,
    code: Seq<char>,
    kind: Seq<char>,
    asked: Option<Seq<Seq<char>>>,
    found: Seq<Seq<char>>,
    hashes: Seq<(Seq<char>, Seq<char>)>,
    result: FullBufferView,
)
    requires
        session.fstar_dependencies is Some || asked is Some,
    ensures
        ({
            let known = learned(session, asked).fstar_dependencies;
            let after = session_checked(session, code, kind, asked, found, hashes, result);
            &&& known is Some
            &&& session.fstar_dependencies is Some ==> known == session.fstar_dependencies
            &&& session_in_check(session, code, kind, asked).fstar_dependencies == known
            &&& after.fstar_dependencies == known
            &&& !remembered(session, !is_lax_kind(kind)).dependency_scan_complete ==> known_files(
                after,
                !is_lax_kind(kind),
            ) == known->Some_0
        }),
{
}

/// A lookup leaves what F* has answered as it is.
pub proof fn law_lookups_keep_the_answer(
    session: SessionView,
    run: LookupRun,
    code: Seq<char>,
    result: Option<FullBufferView>,
)
    ensures
        session_after_preparation(session, run, code, result).fstar_dependencies
            == session.fstar_dependencies,
{
}

/// Where the text of a process has changed since it was checked, a cancellation at the first
/// difference goes out before any query of the check; where it has not, none goes out. The query
/// that was asked for comes after one that reloads the dependencies exactly where they have changed
/// and the kind is full or lax.
pub proof fn law_edits_are_rolled_back_first(
    session: SessionView,
    code: Seq<char>,
    kind: Seq<char>,
    found: Seq<Seq<char>>,
    hashes: Seq<(Seq<char>, Seq<char>)>,
    cache_lost: bool,
    events: Seq<check::CheckEventView>,
    count: int,
)
    requires
        0 <= count <= events.len(),
        remembered(session, is_lax_kind(kind)).last_code is Some,
    ensures
        ({
            let run = begun_check(session, code, kind, found, hashes);
            let course = CheckCourse { restarted: cache_lost, ..run.course };
            let last = remembered(session, is_lax_kind(kind)).last_code->Some_0;
            let action = check::action_after(course, events, count);
            &&& last == code <==> progress::diff_position(last, code) is None
            &&& check::is_query(action) && last != code ==> exists|i: int|
                0 <= i < count && #[trigger] check::action_after(course, events, i) == (
                check::CheckActionView::Cancel {
                    position: progress::diff_position(last, code)->Some_0,
                })
            &&& last == code ==> !(action is Cancel)
            &&& action is Check ==> ((run.dependencies_changed.len() > 0 && is_reloading_kind(kind))
                <==> exists|i: int|
                0 <= i < count && #[trigger] check::action_after(course, events, i) is Reload)
        }),
{
    let run = begun_check(session, code, kind, found, hashes);
    let last = remembered(session, is_lax_kind(kind)).last_code->Some_0;
    let rollback = progress::diff_position(last, code);
    let course = CheckCourse { restarted: cache_lost, ..run.course };
    assert(course == (CheckCourse {
        phase: check::first_phase(rollback),
        reload: run.course.reload,
        restarted: cache_lost,
    }));
    check::law_rollback_comes_first(rollback, run.course.reload, cache_lost, events, count);
    if check::action_after(course, events, count) is Check {
        check::law_reload_precedes_the_check(
            rollback,
            run.course.reload,
            cache_lost,
            events,
            count,
        );
    }
}

/// A lax check and a lax check to a position go to the lax process, every other check to the
/// checking one. A check starts from what that process was left with: the fragments that it has
/// reported, the text that it has seen and the digests of what it has loaded. Only a full and a lax
/// check reload, and only where something has changed since the process was checked.
pub proof fn law_checks_start_from_their_process(
    session: SessionView,
    code: Seq<char>,
    kind: Seq<char>,
    found: Seq<Seq<char>>,
    hashes: Seq<(Seq<char>, Seq<char>)>,
)
    ensures
        ({
            let run = begun_check(session, code, kind, found, hashes);
            let state = if kind == "lax"@ || kind == "lax-to-position"@ {
                session.lax
            } else {
                session.checker
            };
            let changed = dependencies::changed_files(
                session.style,
                state.dependency_hashes,
                hashes,
            );
            &&& run.use_lax <==> kind == "lax"@ || kind == "lax-to-position"@
            &&& run.content_hash == digest::sha256_text(vstd::utf8::encode_utf8(code))
            &&& run.previous_fragments == state.last_fragments
            &&& run.dependencies == found
            &&& run.dependency_hashes == hashes
            &&& state.last_code is Some ==> run.dependencies_changed == changed
            &&& state.last_code is None ==> run.dependencies_changed.len() == 0
            &&& run.course.reload <==> run.dependencies_changed.len() > 0 && (kind == "full"@ || kind
                == "lax"@)
            &&& !run.course.restarted
            &&& check::action_in(run.course.phase) == match state.last_code {
                Some(last) => match progress::diff_position(last, code) {
                    Some(position) => check::CheckActionView::Cancel { position },
                    None => check::CheckActionView::PollExit,
                },
                None => check::CheckActionView::PollExit,
            }
        }),
{
}

/// After a check its process is remembered to have seen the text, to have reported the fragments and
/// to depend on the files that were found; it is remembered to have loaded them as they are now,
/// unless they had changed and were not reloaded. The other process and all else stay as they were.
pub proof fn law_checks_are_remembered(
    session: SessionView,
    code: Seq<char>,
    kind: Seq<char>,
    asked: Option<Seq<Seq<char>>>,
    found: Seq<Seq<char>>,
    hashes: Seq<(Seq<char>, Seq<char>)>,
    result: FullBufferView,
)
    ensures
        ({
            let lax = kind == "lax"@ || kind == "lax-to-position"@;
            let run = begun_check(session, code, kind, found, hashes);
            let after = session_checked(session, code, kind, asked, found, hashes, result);
            let before = if lax {
                session.lax
            } else {
                session.checker
            };
            let used = if lax {
                after.lax
            } else {
                after.checker
            };
            &&& used.last_code == Some(code)
            &&& used.last_fragments == result.fragments
            &&& used.dependencies == found
            &&& used.dependency_scan_complete
            &&& used.dependency_hashes == if run.dependencies_changed.len() == 0
                || run.course.reload {
                hashes
            } else {
                before.dependency_hashes
            }
            &&& lax ==> after.checker == session.checker
            &&& !lax ==> after.lax == session.lax
            &&& after.latest_lax == lax
            &&& after.proof_states == result.proof_states
            &&& shown_fragments(after) == result.fragments
            &&& after.fstar_dependencies == match session.fstar_dependencies {
                Some(files) => Some(files),
                None => asked,
            }
            &&& after.style == session.style
            &&& after.id == session.id
            &&& after.file_path == session.file_path
            &&& after.config == session.config
            &&& after.created_at == session.created_at
            &&& after.mcp_session_id == session.mcp_session_id
            &&& after.cache_lost == session.cache_lost
        }),
{
}

/// A check that has begun is remembered by its text alone: its process keeps the fragments, the
/// dependencies and the digests of its last complete check, so that a check that fails leaves them.
pub proof fn law_failed_checks_leave_the_last_result(
    session: SessionView,
    code: Seq<char>,
    kind: Seq<char>,
    asked: Option<Seq<Seq<char>>>,
)
    ensures
        ({
            let lax = kind == "lax"@ || kind == "lax-to-position"@;
            let during = session_in_check(session, code, kind, asked);
            let (before, used) = if lax {
                (session.lax, during.lax)
            } else {
                (session.checker, during.checker)
            };
            &&& used.last_code == Some(code)
            &&& used.last_fragments == before.last_fragments
            &&& used.dependency_hashes == before.dependency_hashes
            &&& used.dependencies == before.dependencies
            &&& used.dependency_scan_complete == before.dependency_scan_complete
            &&& lax ==> during.checker == session.checker
            &&& !lax ==> during.lax == session.lax
            &&& during.proof_states == session.proof_states
            &&& during.latest_lax == session.latest_lax
            &&& during.cache_lost == session.cache_lost
        }),
{
}

/// The result of a check is stale exactly when the file was read from the disk, can be read again,
/// and has another digest now.
pub proof fn law_only_changed_files_are_stale(
    run: CheckRunView,
    result: FullBufferView,
    before: Seq<char>,
    after: Seq<char>,
    unknown: Option<Seq<char>>,
)
    ensures
        check_outcome(run, result, Some(before), Some(after)).stale == (before != after),
        !check_outcome(run, result, None, unknown).stale,
        !check_outcome(run, result, unknown, None).stale,
{
}

/// The outcome of a check is the answer of its process, the digest of the text that was checked,
/// the changes that were seen before and whether the process was restarted. It advises on edits
/// exactly where there were fragments before, there is more than one now and the first one of them
/// is not the same as before.
pub proof fn law_outcomes_tell_what_was_found(
    run: CheckRunView,
    result: FullBufferView,
    disk_hash: Option<Seq<char>>,
    current_hash: Option<Seq<char>>,
)
    ensures
        ({
            let outcome = check_outcome(run, result, disk_hash, current_hash);
            let reused = outcome.reused_fragments as int;
            &&& outcome.result == result
            &&& outcome.content_hash == run.content_hash
            &&& outcome.process_restarted == run.course.restarted
            &&& outcome.dependencies_changed == run.dependencies_changed
            &&& reused <= run.previous_fragments.len() && reused <= result.fragments.len()
            &&& forall|i: int|
                0 <= i < reused ==> #[trigger] run.previous_fragments[i] == result.fragments[i]
            &&& reused < run.previous_fragments.len() && reused < result.fragments.len()
                ==> run.previous_fragments[reused] != result.fragments[reused]
            &&& forall|i: int|
                0 <= i < result.fragments.len() && ((#[trigger] result.fragments[i]).status
                    is Verified || result.fragments[i].status is LaxOk)
                    ==> result.fragments[i].range.end.0 <= outcome.verified_through_line
            &&& outcome.verified_through_line > 0 ==> exists|i: int|
                0 <= i < result.fragments.len() && ((#[trigger] result.fragments[i]).status
                    is Verified || result.fragments[i].status is LaxOk)
                    && result.fragments[i].range.end.0 == outcome.verified_through_line
            &&& outcome.hint is Some <==> run.previous_fragments.len() > 0 && result.fragments.len()
                > 1 && run.previous_fragments[0] != result.fragments[0]
            &&& outcome.hint is Some ==> outcome.hint == Some(
                "No verified prefix was reused. Prefer targeted edits below the last verified line."@,
            )
        }),
{
    progress::law_reused_fragments_are_the_same(run.previous_fragments, result.fragments);
    progress::law_verified_line_is_the_greatest(result.fragments);
}

/// A new session has its file, configuration, client and identifier, and neither of its processes
/// remembers anything: its first check of any kind rolls nothing back, reloads nothing, reports no
/// change and reuses no fragment.
pub proof fn law_first_checks_start_from_nothing(
    style: Style,
    id: Seq<char>,
    file_path: Seq<char>,
    config: FStarConfigView,
    created_at: MomentView,
    mcp_session_id: Option<Seq<char>>,
    cache_lost: bool,
    code: Seq<char>,
    kind: Seq<char>,
    found: Seq<Seq<char>>,
    hashes: Seq<(Seq<char>, Seq<char>)>,
    result: FullBufferView,
)
    ensures
        ({
            let session = new_session(
                style,
                id,
                file_path,
                config,
                created_at,
                mcp_session_id,
                cache_lost,
            );
            let run = begun_check(session, code, kind, found, hashes);
            let outcome = check_outcome(run, result, None, None);
            &&& session.style == style
            &&& session.id == id
            &&& session.file_path == file_path
            &&& session.config == config
            &&& session.created_at == created_at
            &&& session.mcp_session_id == mcp_session_id
            &&& session.cache_lost == cache_lost
            &&& session.fstar_dependencies is None
            &&& session.proof_states.len() == 0
            &&& session.latest_lax
            &&& shown_fragments(session).len() == 0
            &&& !session.lax.dependency_scan_complete
            &&& !session.checker.dependency_scan_complete
            &&& known_files(session, true).len() == 0
            &&& known_files(session, false).len() == 0
            &&& check::action_in(run.course.phase) == check::CheckActionView::PollExit
            &&& !run.course.reload
            &&& run.dependencies_changed.len() == 0
            &&& outcome.reused_fragments == 0
            &&& outcome.hint is None
        }),
{
}

/// The dependencies that are known of a process are those of its last complete check; before the
/// first one they are those that F* has named, and none where it has named none.
pub proof fn law_complete_checks_tell_the_dependencies(session: SessionView, use_lax: bool)
    ensures
        ({
            let state = if use_lax {
                session.lax
            } else {
                session.checker
            };
            &&& state.dependency_scan_complete ==> known_files(session, use_lax)
                == state.dependencies
            &&& !state.dependency_scan_complete && session.fstar_dependencies is Some
                ==> known_files(session, use_lax) == session.fstar_dependencies->Some_0
            &&& !state.dependency_scan_complete && session.fstar_dependencies is None
                ==> known_files(session, use_lax).len() == 0
        }),
{
}

/// The preparation of a lookup is remembered of the lax process alone: its text, its dependencies
/// and their digests are those of now, and its fragments change only where it has looked at the
/// buffer.
pub proof fn law_preparations_are_remembered(
    session: SessionView,
    run: LookupRun,
    code: Seq<char>,
    result: Option<FullBufferView>,
)
    ensures
        ({
            let after = session_after_preparation(session, run, code, result);
            &&& after.lax.last_code == Some(code)
            &&& after.lax.dependency_scan_complete
            &&& after.lax.dependencies == text::texts(run.dependencies@)
            &&& after.lax.dependency_hashes == dependencies::hashes_view(run.dependency_hashes@)
            &&& result is None ==> after.lax.last_fragments == session.lax.last_fragments
            &&& result is Some ==> after.lax.last_fragments == result->Some_0.fragments
            &&& after.checker == session.checker
            &&& after.proof_states == session.proof_states
            &&& after.latest_lax == session.latest_lax
            &&& after.id == session.id
            &&& after.mcp_session_id == session.mcp_session_id
            &&& after.cache_lost == session.cache_lost
        }),
{
}

/// F* is asked for the dependencies of a session exactly while it has not named them, whatever
/// process does the check.
pub proof fn law_sessions_ask_until_they_know(
    session: &Session,
    code: &str,
    kind: &str,
    plan: CheckPlan,
)
    requires
        call_ensures(Session::check, (session, code, kind), plan),
    ensures
        plan.run_fstar_dep <==> session@.fstar_dependencies is None,
        plan.use_lax <==> kind@ == "lax"@ || kind@ == "lax-to-position"@,
        plan.content_hash@ == digest::sha256_text(vstd::utf8::encode_utf8(code@)),
        text::texts(plan.known_dependencies@) == known_files(session@, plan.use_lax),
{
}

/// A lookup prepares the lax process: it reloads exactly where that process has loaded dependencies
/// before and one of them has changed since.
pub proof fn law_lookups_prepare_the_lax_process(
    session: &mut Session,
    asked: Option<Vec<String>>,
    found: Vec<String>,
    hashes: Vec<(String, String)>,
    run: LookupRun,
)
    requires
        call_ensures(Session::lookup, (session, asked, found, hashes), run),
    ensures
        ({
            let lax = old(session)@.lax;
            let changed = dependencies::changed_files(
                old(session)@.style,
                lax.dependency_hashes,
                dependencies::hashes_view(hashes@),
            );
            &&& check::lookup_action_in(run.course.phase) == check::LookupActionView::PollExit
            &&& run.course.initialized == lax.dependency_scan_complete
            &&& run.course.reload <==> lax.dependency_scan_complete && changed.len() > 0
            &&& !run.course.restarted
            &&& text::texts(run.dependencies@) == text::texts(found@)
            &&& final(session)@.lax == lax
            &&& final(session)@.checker == old(session)@.checker
        }),
{
}

/// A cache that was lost is reported by the next check, and by that one alone.
pub proof fn law_lost_caches_are_reported_by_one_check(
    session: &mut Session,
    run: &mut CheckRun,
    later: &mut Session,
    next: &mut CheckRun,
)
    requires
        call_ensures(Session::take_cache_lost, (session, run), ()),
        call_ensures(Session::take_cache_lost, (later, next), ()),
        *old(later) == *final(session),
    ensures
        final(run)@.course.restarted == old(session)@.cache_lost,
        !final(next)@.course.restarted,
        final(session)@.checker == old(session)@.checker,
        final(session)@.lax == old(session)@.lax,
{
}

} // verus!
