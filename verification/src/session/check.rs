//! The course of a check: which steps it takes with its process, and what it leaves behind.
use crate::fstar::process::{
    FullBufferResult, FullBufferView, ProcessError, ProcessErrorView,
};
use crate::json::Json;
use crate::text;
use vstd::prelude::*;

verus! {

/// Where a check stands. A retry is the second try after the process has gone away.
#[derive(Debug, Clone, Copy, PartialEq, Eq)]
pub enum CheckPhase {
    /// The process is told to forget what it has checked from the position on.
    RollingBack { position: (u32, u32) },
    /// It is asked whether the process has exited.
    Polling,
    /// A new process is being started.
    Spawning { retry: bool },
    /// The process reloads changed dependencies.
    Reloading { retry: bool },
    /// The process checks the buffer.
    Checking { retry: bool },
    /// Nothing is left to do.
    Ended,
}

/// What a step of a check has brought.
#[derive(Debug)]
pub enum CheckEvent {
    /// The process has been told to forget, or could not be told.
    RolledBack(Result<(), ProcessError>),
    /// Whether the process has exited.
    Exited(Result<bool, ProcessError>),
    /// A new process runs, or could not be started.
    Spawned(Result<(), ProcessError>),
    /// A query on the buffer has ended.
    Answered(Result<FullBufferResult, ProcessError>),
}

/// The model of what a step of a check has brought.
pub enum CheckEventView {
    RolledBack(Result<(), ProcessErrorView>),
    Exited(Result<bool, ProcessErrorView>),
    Spawned(Result<(), ProcessErrorView>),
    Answered(Result<FullBufferView, ProcessErrorView>),
}

impl View for CheckEvent {
    type V = CheckEventView;

    open spec fn view(&self) -> CheckEventView {
        match *self {
            CheckEvent::RolledBack(Ok(_)) => CheckEventView::RolledBack(Ok(())),
            CheckEvent::RolledBack(Err(error)) => CheckEventView::RolledBack(Err(error@)),
            CheckEvent::Exited(Ok(exited)) => CheckEventView::Exited(Ok(exited)),
            CheckEvent::Exited(Err(error)) => CheckEventView::Exited(Err(error@)),
            CheckEvent::Spawned(Ok(_)) => CheckEventView::Spawned(Ok(())),
            CheckEvent::Spawned(Err(error)) => CheckEventView::Spawned(Err(error@)),
            CheckEvent::Answered(Ok(result)) => CheckEventView::Answered(Ok(result@)),
            CheckEvent::Answered(Err(error)) => CheckEventView::Answered(Err(error@)),
        }
    }
}

/// The next step of a check.
#[derive(Debug)]
pub enum CheckAction {
    /// Send a cancellation from the position on.
    Cancel { position: (u32, u32) },
    /// Ask whether the process has exited.
    PollExit,
    /// Start a new process.
    Spawn,
    /// Send a query that reloads the dependencies.
    Reload,
    /// Send the query that was asked for.
    Check,
    /// The check is complete.
    Finish(FullBufferResult),
    /// The check has failed.
    Fail(ProcessError),
    /// Nothing: the check was over before.
    Nothing,
}

/// The model of the next step of a check.
pub enum CheckActionView {
    Cancel { position: (u32, u32) },
    PollExit,
    Spawn,
    Reload,
    Check,
    Finish(FullBufferView),
    Fail(ProcessErrorView),
    Nothing,
}

impl View for CheckAction {
    type V = CheckActionView;

    open spec fn view(&self) -> CheckActionView {
        match *self {
            CheckAction::Cancel { position } => CheckActionView::Cancel { position },
            CheckAction::PollExit => CheckActionView::PollExit,
            CheckAction::Spawn => CheckActionView::Spawn,
            CheckAction::Reload => CheckActionView::Reload,
            CheckAction::Check => CheckActionView::Check,
            CheckAction::Finish(result) => CheckActionView::Finish(result@),
            CheckAction::Fail(error) => CheckActionView::Fail(error@),
            CheckAction::Nothing => CheckActionView::Nothing,
        }
    }
}

/// The course of a check so far.
#[derive(Debug, Clone, Copy, PartialEq, Eq)]
pub struct CheckCourse {
    pub phase: CheckPhase,
    /// True when changed dependencies have to be reloaded first.
    pub reload: bool,
    /// True when what the process had verified before is lost.
    pub restarted: bool,
}

/// The step that belongs to a phase.
pub open spec fn action_in(phase: CheckPhase) -> CheckActionView {
    match phase {
        CheckPhase::RollingBack { position } => CheckActionView::Cancel { position },
        CheckPhase::Polling => CheckActionView::PollExit,
        CheckPhase::Spawning { .. } => CheckActionView::Spawn,
        CheckPhase::Reloading { .. } => CheckActionView::Reload,
        CheckPhase::Checking { .. } => CheckActionView::Check,
        CheckPhase::Ended => CheckActionView::Nothing,
    }
}

/// The phase in which a check begins: a process whose text has changed forgets the rest first.
pub open spec fn first_phase(rollback: Option<(u32, u32)>) -> CheckPhase {
    match rollback {
        Some(position) => CheckPhase::RollingBack { position },
        None => CheckPhase::Polling,
    }
}

/// The phase in which a running process is used first.
pub open spec fn query_phase(reload: bool, retry: bool) -> CheckPhase {
    if reload {
        CheckPhase::Reloading { retry }
    } else {
        CheckPhase::Checking { retry }
    }
}

/// True for the failures after which a new process is tried: the process has gone away.
pub open spec fn is_lost(error: ProcessErrorView) -> bool {
    error is ProcessExited || error is SendError
}

/// True when the event is what the phase waits for.
pub open spec fn fits(phase: CheckPhase, event: CheckEventView) -> bool {
    match phase {
        CheckPhase::RollingBack { .. } => event is RolledBack,
        CheckPhase::Polling => event is Exited,
        CheckPhase::Spawning { .. } => event is Spawned,
        CheckPhase::Reloading { .. } => event is Answered,
        CheckPhase::Checking { .. } => event is Answered,
        CheckPhase::Ended => false,
    }
}

/// A course that goes on in a phase.
pub open spec fn moved(course: CheckCourse, phase: CheckPhase) -> (CheckCourse, CheckActionView) {
    (CheckCourse { phase, ..course }, action_in(phase))
}

/// A course that has failed.
pub open spec fn failed(course: CheckCourse, error: ProcessErrorView) -> (
    CheckCourse,
    CheckActionView,
) {
    (CheckCourse { phase: CheckPhase::Ended, ..course }, CheckActionView::Fail(error))
}

/// The course after an event, and the next step. A check goes on where the process could not be
/// told to forget: whether it still runs is found out next. An event that the course does not wait
/// for changes nothing.
pub open spec fn advanced(course: CheckCourse, event: CheckEventView) -> (
    CheckCourse,
    CheckActionView,
) {
    match (course.phase, event) {
        (CheckPhase::RollingBack { .. }, CheckEventView::RolledBack(_)) => moved(
            course,
            CheckPhase::Polling,
        ),
        (CheckPhase::Polling, CheckEventView::Exited(Ok(exited))) => if exited {
            moved(course, CheckPhase::Spawning { retry: false })
        } else {
            moved(course, query_phase(course.reload, false))
        },
        (CheckPhase::Polling, CheckEventView::Exited(Err(error))) => failed(course, error),
        (CheckPhase::Spawning { retry }, CheckEventView::Spawned(Ok(_))) => moved(
            CheckCourse { restarted: true, ..course },
            query_phase(course.reload, retry),
        ),
        (CheckPhase::Spawning { .. }, CheckEventView::Spawned(Err(error))) => failed(course, error),
        (CheckPhase::Reloading { retry }, CheckEventView::Answered(Ok(_))) => moved(
            course,
            CheckPhase::Checking { retry },
        ),
        (CheckPhase::Reloading { .. }, CheckEventView::Answered(Err(error))) => failed(
            course,
            error,
        ),
        (CheckPhase::Checking { .. }, CheckEventView::Answered(Ok(result))) => (
            CheckCourse { phase: CheckPhase::Ended, ..course },
            CheckActionView::Finish(result),
        ),
        (CheckPhase::Checking { retry }, CheckEventView::Answered(Err(error))) => if !retry
            && is_lost(error) {
            moved(course, CheckPhase::Spawning { retry: true })
        } else {
            failed(course, error)
        },
        _ => (course, action_in(course.phase)),
    }
}

/// How many steps a course can take at most.
pub open spec fn steps_left(phase: CheckPhase) -> nat {
    match phase {
        CheckPhase::RollingBack { .. } => 8,
        CheckPhase::Polling => 7,
        CheckPhase::Spawning { retry } => if retry {
            3
        } else {
            6
        },
        CheckPhase::Reloading { retry } => if retry {
            2
        } else {
            5
        },
        CheckPhase::Checking { retry } => if retry {
            1
        } else {
            4
        },
        CheckPhase::Ended => 0,
    }
}

/// Every step brings a check nearer to its end: a process that keeps dying is replaced once, and
/// no more.
pub proof fn law_checks_end(course: CheckCourse, event: CheckEventView)
    requires
        fits(course.phase, event),
    ensures
        steps_left(advanced(course, event).0.phase) < steps_left(course.phase),
        advanced(course, event).0.phase is Ended <==> advanced(course, event).1 is Finish
            || advanced(course, event).1 is Fail,
{
}

/// The course after all events.
pub open spec fn advanced_all(course: CheckCourse, events: Seq<CheckEventView>) -> CheckCourse
    decreases events.len(),
{
    if events.len() == 0 {
        course
    } else {
        advanced(advanced_all(course, events.drop_last()), events.last()).0
    }
}

/// True when the event with the index has brought a new process.
pub open spec fn has_spawned(course: CheckCourse, events: Seq<CheckEventView>, index: int) -> bool {
    &&& advanced_all(course, events.take(index)).phase is Spawning
    &&& events[index] is Spawned
    &&& events[index]->Spawned_0 is Ok
}

/// A check reports a restart exactly when the cache was lost before, or it has started a process.
pub proof fn law_restarts_are_reported(course: CheckCourse, events: Seq<CheckEventView>)
    ensures
        advanced_all(course, events).restarted <==> course.restarted || exists|i: int|
            0 <= i < events.len() && #[trigger] has_spawned(course, events, i),
    decreases events.len(),
{
    if events.len() > 0 {
        let rest = events.drop_last();
        let last = events.len() - 1;
        law_restarts_are_reported(course, rest);
        assert(events.take(last) =~= rest);
        assert forall|i: int| 0 <= i < rest.len() implies #[trigger] has_spawned(course, rest, i)
            == has_spawned(course, events, i) by {
            assert(rest.take(i) =~= events.take(i));
        }
        if exists|i: int| 0 <= i < rest.len() && #[trigger] has_spawned(course, rest, i) {
            let i = choose|i: int| 0 <= i < rest.len() && #[trigger] has_spawned(course, rest, i);
            assert(has_spawned(course, events, i));
        }
        if exists|i: int| 0 <= i < events.len() && #[trigger] has_spawned(course, events, i) {
            let i = choose|i: int|
                0 <= i < events.len() && #[trigger] has_spawned(course, events, i);
            if i < last {
                assert(has_spawned(course, rest, i));
            }
        }
        if advanced_all(course, events).restarted && !advanced_all(course, rest).restarted {
            assert(has_spawned(course, events, last));
        }
    }
}

/// Changed dependencies are reloaded in the process that checks the buffer: the query that was
/// asked for is sent only to a process that has just reloaded them, where they have changed.
pub proof fn law_reload_comes_first(course: CheckCourse, event: CheckEventView)
    requires
        course.reload,
        !(course.phase is Checking),
        advanced(course, event).1 is Check,
    ensures
        course.phase is Reloading,
        event is Answered,
{
}

/// The step that a course is at once the first events have come.
pub open spec fn action_after(
    course: CheckCourse,
    events: Seq<CheckEventView>,
    count: int,
) -> CheckActionView {
    if count == 0 {
        action_in(course.phase)
    } else {
        advanced(advanced_all(course, events.take(count - 1)), events[count - 1]).1
    }
}

/// True for the steps that send a query on the buffer.
pub open spec fn is_query(action: CheckActionView) -> bool {
    action is Reload || action is Check
}

/// The phase in which a step is taken.
proof fn lemma_action_tells_the_phase(course: CheckCourse, events: Seq<CheckEventView>, count: int)
    requires
        0 <= count <= events.len(),
    ensures
        ({
            let phase = advanced_all(course, events.take(count)).phase;
            let action = action_after(course, events, count);
            &&& action is Cancel ==> phase is RollingBack
            &&& action is Reload <==> phase is Reloading
            &&& action is Check <==> phase is Checking
        }),
{
    if count > 0 {
        assert(events.take(count).drop_last() =~= events.take(count - 1));
        assert(events.take(count).last() == events[count - 1]);
    }
}

/// The course after one more event.
proof fn lemma_advanced_once_more(course: CheckCourse, events: Seq<CheckEventView>, count: int)
    requires
        0 < count <= events.len(),
    ensures
        advanced_all(course, events.take(count)) == advanced(
            advanced_all(course, events.take(count - 1)),
            events[count - 1],
        ).0,
{
    assert(events.take(count).drop_last() =~= events.take(count - 1));
    assert(events.take(count).last() == events[count - 1]);
}

/// A course that does not roll back any longer never does again.
proof fn lemma_rollback_stays_over(
    course: CheckCourse,
    events: Seq<CheckEventView>,
    count: int,
    later: int,
)
    requires
        0 <= count <= later <= events.len(),
        !(advanced_all(course, events.take(count)).phase is RollingBack),
    ensures
        !(advanced_all(course, events.take(later)).phase is RollingBack),
    decreases later - count,
{
    if count < later {
        lemma_advanced_once_more(course, events, later);
        lemma_rollback_stays_over(course, events, count, later - 1);
    }
}

/// Where a text has changed, the process is told so before any query of the check is sent, at the
/// position of the change and never after a query; where it has not, nothing is sent in its place.
pub proof fn law_rollback_comes_first(
    rollback: Option<(u32, u32)>,
    reload: bool,
    cache_lost: bool,
    events: Seq<CheckEventView>,
    count: int,
)
    requires
        0 <= count <= events.len(),
    ensures
        ({
            let course = CheckCourse {
                phase: first_phase(rollback),
                reload,
                restarted: cache_lost,
            };
            &&& is_query(action_after(course, events, count)) && rollback is Some ==> exists|i: int|
                0 <= i < count && #[trigger] action_after(course, events, i) == (
                CheckActionView::Cancel { position: rollback->Some_0 })
            &&& action_after(course, events, count) is Cancel ==> rollback == Some(
                action_after(course, events, count)->position,
            ) && forall|i: int|
                0 <= i <= count ==> !is_query(#[trigger] action_after(course, events, i))
        }),
    decreases count,
{
    let course = CheckCourse { phase: first_phase(rollback), reload, restarted: cache_lost };
    assert(events.take(0) =~= Seq::empty());
    lemma_action_tells_the_phase(course, events, count);
    if rollback is Some {
        assert(action_after(course, events, 0) == (CheckActionView::Cancel {
            position: rollback->Some_0,
        }));
    } else {
        lemma_rollback_stays_over(course, events, 0, count);
    }
    if count > 0 {
        lemma_advanced_once_more(course, events, count);
        if action_after(course, events, count) is Cancel {
            lemma_action_tells_the_phase(course, events, count - 1);
            let before = advanced_all(course, events.take(count - 1));
            assert(before.phase is RollingBack);
            lemma_phase_is_kept_while_rolling_back(course, events, count);
        }
    }
    if action_after(course, events, count) is Cancel {
        assert forall|i: int| 0 <= i <= count implies !is_query(
            #[trigger] action_after(course, events, i),
        ) by {
            lemma_action_tells_the_phase(course, events, i);
            if !(advanced_all(course, events.take(i)).phase is RollingBack) {
                lemma_rollback_stays_over(course, events, i, count);
            }
        }
    }
}

/// A course that still rolls back stands where it began.
proof fn lemma_phase_is_kept_while_rolling_back(
    course: CheckCourse,
    events: Seq<CheckEventView>,
    count: int,
)
    requires
        0 <= count <= events.len(),
        advanced_all(course, events.take(count)).phase is RollingBack,
    ensures
        advanced_all(course, events.take(count)).phase == course.phase,
    decreases count,
{
    if count > 0 {
        lemma_advanced_once_more(course, events, count);
        lemma_phase_is_kept_while_rolling_back(course, events, count - 1);
    } else {
        assert(events.take(0) =~= Seq::empty());
    }
}

/// Whether dependencies are reloaded does not change in a course, and a course that stands at the
/// reloading or past it has begun it.
proof fn lemma_reload_is_kept(course: CheckCourse, events: Seq<CheckEventView>, count: int)
    requires
        0 <= count <= events.len(),
        !(course.phase is Reloading),
        !(course.phase is Checking),
    ensures
        advanced_all(course, events.take(count)).reload == course.reload,
        !course.reload ==> !(advanced_all(course, events.take(count)).phase is Reloading),
        course.reload && advanced_all(course, events.take(count)).phase is Checking ==> exists|
            i: int,
        |
            0 <= i < count && #[trigger] action_after(course, events, i) is Reload,
    decreases count,
{
    if count > 0 {
        lemma_advanced_once_more(course, events, count);
        lemma_reload_is_kept(course, events, count - 1);
        let before = advanced_all(course, events.take(count - 1));
        if course.reload && advanced_all(course, events.take(count)).phase is Checking {
            lemma_action_tells_the_phase(course, events, count - 1);
            if before.phase is Reloading {
                assert(action_after(course, events, count - 1) is Reload);
            }
        }
    } else {
        assert(events.take(0) =~= Seq::empty());
    }
}

/// The query that was asked for comes after one that reloads the dependencies exactly where they
/// have to be reloaded.
pub proof fn law_reload_precedes_the_check(
    rollback: Option<(u32, u32)>,
    reload: bool,
    cache_lost: bool,
    events: Seq<CheckEventView>,
    count: int,
)
    requires
        0 <= count <= events.len(),
        ({
            let course = CheckCourse {
                phase: first_phase(rollback),
                reload,
                restarted: cache_lost,
            };
            action_after(course, events, count) is Check
        }),
    ensures
        ({
            let course = CheckCourse {
                phase: first_phase(rollback),
                reload,
                restarted: cache_lost,
            };
            reload <==> exists|i: int|
                0 <= i < count && #[trigger] action_after(course, events, i) is Reload
        }),
{
    let course = CheckCourse { phase: first_phase(rollback), reload, restarted: cache_lost };
    lemma_action_tells_the_phase(course, events, count);
    lemma_reload_is_kept(course, events, count);
    if !reload {
        assert forall|i: int| 0 <= i < count implies !(#[trigger] action_after(
            course,
            events,
            i,
        ) is Reload) by {
            lemma_action_tells_the_phase(course, events, i);
            lemma_reload_is_kept(course, events, i);
        }
    }
}

/// The step that belongs to a phase.
fn step_in(phase: CheckPhase) -> (action: CheckAction)
    ensures
        action@ == action_in(phase),
{
    match phase {
        CheckPhase::RollingBack { position } => CheckAction::Cancel { position },
        CheckPhase::Polling => CheckAction::PollExit,
        CheckPhase::Spawning { .. } => CheckAction::Spawn,
        CheckPhase::Reloading { .. } => CheckAction::Reload,
        CheckPhase::Checking { .. } => CheckAction::Check,
        CheckPhase::Ended => CheckAction::Nothing,
    }
}

/// The kind and the position of the query on the buffer that a step of a check sends; a step that
/// reloads the dependencies goes through the whole buffer.
pub open spec fn query_in(
    action: CheckActionView,
    requested_kind: Seq<char>,
    to_position: Option<(u32, u32)>,
) -> Option<(Seq<char>, Option<(u32, u32)>)> {
    match action {
        CheckActionView::Reload => Some(("reload-deps"@, None)),
        CheckActionView::Check => Some((requested_kind, to_position)),
        _ => None,
    }
}

/// The model of the kind and the position of a query.
pub open spec fn opt_query(query: Option<(String, Option<(u32, u32)>)>) -> Option<
    (Seq<char>, Option<(u32, u32)>),
> {
    match query {
        Some((kind, position)) => Some((kind@, position)),
        None => None,
    }
}

impl CheckAction {
    /// The kind and the position of the query on the buffer that the step sends; other steps send
    /// none.
    pub fn query(&self, requested_kind: &str, to_position: Option<(u32, u32)>) -> (query: Option<
        (String, Option<(u32, u32)>),
    >)
        ensures
            opt_query(query) == query_in(self@, requested_kind@, to_position),
    {
        match self {
            CheckAction::Reload => Some(("reload-deps".to_owned(), None)),
            CheckAction::Check => Some((requested_kind.to_owned(), to_position)),
            _ => None,
        }
    }
}

impl CheckCourse {
    /// The course of a check that has not begun.
    pub fn new(rollback: Option<(u32, u32)>, reload: bool, cache_lost: bool) -> (course:
        CheckCourse)
        ensures
            course == (CheckCourse { phase: first_phase(rollback), reload, restarted: cache_lost }),
    {
        let phase = match rollback {
            Some(position) => CheckPhase::RollingBack { position },
            None => CheckPhase::Polling,
        };
        CheckCourse { phase, reload, restarted: cache_lost }
    }

    /// The step that the course is at.
    pub fn action(&self) -> (action: CheckAction)
        ensures
            action@ == action_in(self.phase),
    {
        step_in(self.phase)
    }

    /// Goes on in the phase in which a running process is used first.
    fn use_process(&mut self, retry: bool) -> (action: CheckAction)
        ensures
            (*final(self), action@) == moved(*old(self), query_phase(old(self).reload, retry)),
    {
        if self.reload {
            self.phase = CheckPhase::Reloading { retry };
        } else {
            self.phase = CheckPhase::Checking { retry };
        }
        step_in(self.phase)
    }

    /// Ends the check with a failure.
    fn fail(&mut self, error: ProcessError) -> (action: CheckAction)
        ensures
            (*final(self), action@) == failed(*old(self), error@),
    {
        self.phase = CheckPhase::Ended;
        CheckAction::Fail(error)
    }

    /// Goes on after an event.
    pub fn advance(&mut self, event: CheckEvent) -> (action: CheckAction)
        ensures
            (*final(self), action@) == advanced(*old(self), event@),
    {
        match (self.phase, event) {
            (CheckPhase::RollingBack { .. }, CheckEvent::RolledBack(_)) => {
                self.phase = CheckPhase::Polling;
                CheckAction::PollExit
            },
            (CheckPhase::Polling, CheckEvent::Exited(Ok(exited))) => {
                if exited {
                    self.phase = CheckPhase::Spawning { retry: false };
                    CheckAction::Spawn
                } else {
                    self.use_process(false)
                }
            },
            (CheckPhase::Polling, CheckEvent::Exited(Err(error))) => self.fail(error),
            (CheckPhase::Spawning { retry }, CheckEvent::Spawned(Ok(_))) => {
                self.restarted = true;
                self.use_process(retry)
            },
            (CheckPhase::Spawning { .. }, CheckEvent::Spawned(Err(error))) => self.fail(error),
            (CheckPhase::Reloading { retry }, CheckEvent::Answered(Ok(_))) => {
                self.phase = CheckPhase::Checking { retry };
                CheckAction::Check
            },
            (CheckPhase::Reloading { .. }, CheckEvent::Answered(Err(error))) => self.fail(error),
            (CheckPhase::Checking { .. }, CheckEvent::Answered(Ok(result))) => {
                self.phase = CheckPhase::Ended;
                CheckAction::Finish(result)
            },
            (CheckPhase::Checking { retry }, CheckEvent::Answered(Err(error))) => {
                let lost = match &error {
                    ProcessError::ProcessExited(_) => true,
                    ProcessError::SendError(_) => true,
                    _ => false,
                };
                if !retry && lost {
                    self.phase = CheckPhase::Spawning { retry: true };
                    CheckAction::Spawn
                } else {
                    self.fail(error)
                }
            },
            _ => step_in(self.phase),
        }
    }
}

/// Where the preparation of a lookup stands.
#[derive(Debug, Clone, Copy, PartialEq, Eq, Structural)]
pub enum LookupPhase {
    Polling,
    Spawning,
    Reloading,
    Initializing,
    Ended,
}

/// The next step of a lookup.
#[derive(Debug)]
pub enum LookupAction {
    /// Ask whether the process has exited.
    PollExit,
    /// Start a new process.
    Spawn,
    /// Send a query that reloads the dependencies.
    Reload,
    /// Send a query that checks the buffer laxly.
    Initialize,
    /// Send the lookup; the process has checked the buffer just now where there is a result.
    Ready(Option<FullBufferResult>),
    /// The lookup has failed.
    Fail(ProcessError),
    /// Nothing: the preparation was over before.
    Nothing,
}

/// The model of the next step of a lookup.
pub enum LookupActionView {
    PollExit,
    Spawn,
    Reload,
    Initialize,
    Ready(Option<FullBufferView>),
    Fail(ProcessErrorView),
    Nothing,
}

/// The model of a result that may be missing.
pub open spec fn opt_result(result: Option<FullBufferResult>) -> Option<FullBufferView> {
    match result {
        Some(found) => Some(found@),
        None => None,
    }
}

impl View for LookupAction {
    type V = LookupActionView;

    open spec fn view(&self) -> LookupActionView {
        match *self {
            LookupAction::PollExit => LookupActionView::PollExit,
            LookupAction::Spawn => LookupActionView::Spawn,
            LookupAction::Reload => LookupActionView::Reload,
            LookupAction::Initialize => LookupActionView::Initialize,
            LookupAction::Ready(result) => LookupActionView::Ready(opt_result(result)),
            LookupAction::Fail(error) => LookupActionView::Fail(error@),
            LookupAction::Nothing => LookupActionView::Nothing,
        }
    }
}

/// The preparation of a lookup so far.
#[derive(Debug, Clone, Copy, PartialEq, Eq, Structural)]
pub struct LookupCourse {
    pub phase: LookupPhase,
    /// True when the lax process has checked the file before.
    pub initialized: bool,
    /// True when dependencies have changed since.
    pub reload: bool,
    /// True when the lax process is a new one.
    pub restarted: bool,
}

/// The step that belongs to a phase of a lookup.
pub open spec fn lookup_action_in(phase: LookupPhase) -> LookupActionView {
    match phase {
        LookupPhase::Polling => LookupActionView::PollExit,
        LookupPhase::Spawning => LookupActionView::Spawn,
        LookupPhase::Reloading => LookupActionView::Reload,
        LookupPhase::Initializing => LookupActionView::Initialize,
        LookupPhase::Ended => LookupActionView::Nothing,
    }
}

/// A lookup that goes on in a phase.
pub open spec fn lookup_moved(course: LookupCourse, phase: LookupPhase) -> (
    LookupCourse,
    LookupActionView,
) {
    (LookupCourse { phase, ..course }, lookup_action_in(phase))
}

/// A lookup whose preparation is over.
pub open spec fn lookup_ended(course: LookupCourse, action: LookupActionView) -> (
    LookupCourse,
    LookupActionView,
) {
    (LookupCourse { phase: LookupPhase::Ended, ..course }, action)
}

/// A lookup once the dependencies are those of now: the buffer is checked where the process has
/// not checked it, or has been given other dependencies since.
pub open spec fn lookup_initialized(course: LookupCourse) -> (LookupCourse, LookupActionView) {
    if !course.initialized || course.reload || course.restarted {
        lookup_moved(course, LookupPhase::Initializing)
    } else {
        lookup_ended(course, LookupActionView::Ready(None))
    }
}

/// A lookup once the process runs.
pub open spec fn lookup_started(course: LookupCourse) -> (LookupCourse, LookupActionView) {
    if course.reload {
        lookup_moved(course, LookupPhase::Reloading)
    } else {
        lookup_initialized(course)
    }
}

/// The preparation of a lookup after an event, and the next step. An event that it does not wait
/// for changes nothing.
pub open spec fn lookup_advanced(course: LookupCourse, event: CheckEventView) -> (
    LookupCourse,
    LookupActionView,
) {
    match (course.phase, event) {
        (LookupPhase::Polling, CheckEventView::Exited(Ok(exited))) => if exited {
            lookup_moved(course, LookupPhase::Spawning)
        } else {
            lookup_started(course)
        },
        (LookupPhase::Polling, CheckEventView::Exited(Err(error))) => lookup_ended(
            course,
            LookupActionView::Fail(error),
        ),
        (LookupPhase::Spawning, CheckEventView::Spawned(Ok(_))) => lookup_started(
            LookupCourse { restarted: true, ..course },
        ),
        (LookupPhase::Spawning, CheckEventView::Spawned(Err(error))) => lookup_ended(
            course,
            LookupActionView::Fail(error),
        ),
        (LookupPhase::Reloading, CheckEventView::Answered(Ok(_))) => lookup_initialized(course),
        (LookupPhase::Reloading, CheckEventView::Answered(Err(error))) => lookup_ended(
            course,
            LookupActionView::Fail(error),
        ),
        (LookupPhase::Initializing, CheckEventView::Answered(Ok(result))) => lookup_ended(
            course,
            LookupActionView::Ready(Some(result)),
        ),
        (LookupPhase::Initializing, CheckEventView::Answered(Err(error))) => lookup_ended(
            course,
            LookupActionView::Fail(error),
        ),
        _ => (course, lookup_action_in(course.phase)),
    }
}

/// A symbol is looked up without a check only where the process has checked the file before, is
/// still the same, and no dependency has changed since.
pub proof fn law_lookups_see_a_checked_buffer(course: LookupCourse, event: CheckEventView)
    requires
        lookup_advanced(course, event).1 is Ready,
    ensures
        lookup_advanced(course, event).1->Ready_0 is None ==> course.initialized && !course.reload
            && !lookup_advanced(course, event).0.restarted,
        lookup_advanced(course, event).1->Ready_0 is Some ==> course.phase is Initializing,
{
}

/// The step that belongs to a phase of a lookup.
fn lookup_step_in(phase: LookupPhase) -> (action: LookupAction)
    ensures
        action@ == lookup_action_in(phase),
{
    match phase {
        LookupPhase::Polling => LookupAction::PollExit,
        LookupPhase::Spawning => LookupAction::Spawn,
        LookupPhase::Reloading => LookupAction::Reload,
        LookupPhase::Initializing => LookupAction::Initialize,
        LookupPhase::Ended => LookupAction::Nothing,
    }
}

/// The kind of the query on the whole buffer that a step of a lookup sends.
pub open spec fn lookup_query_in(action: LookupActionView) -> Option<Seq<char>> {
    match action {
        LookupActionView::Reload => Some("reload-deps"@),
        LookupActionView::Initialize => Some("lax"@),
        _ => None,
    }
}

impl LookupAction {
    /// The kind of the query on the whole buffer that the step sends; other steps send none.
    pub fn query(&self) -> (kind: Option<String>)
        ensures
            text::opt_text(kind) == lookup_query_in(self@),
    {
        match self {
            LookupAction::Reload => Some("reload-deps".to_owned()),
            LookupAction::Initialize => Some("lax".to_owned()),
            _ => None,
        }
    }
}

impl LookupCourse {
    /// The preparation of a lookup that has not begun.
    pub fn new(initialized: bool, dependencies_changed: bool) -> (course: LookupCourse)
        ensures
            course == (LookupCourse {
                phase: LookupPhase::Polling,
                initialized,
                reload: dependencies_changed,
                restarted: false,
            }),
    {
        LookupCourse {
            phase: LookupPhase::Polling,
            initialized,
            reload: dependencies_changed,
            restarted: false,
        }
    }

    /// The step that the preparation is at.
    pub fn action(&self) -> (action: LookupAction)
        ensures
            action@ == lookup_action_in(self.phase),
    {
        lookup_step_in(self.phase)
    }

    /// Goes on once the dependencies are those of now.
    fn initialize(&mut self) -> (action: LookupAction)
        ensures
            (*final(self), action@) == lookup_initialized(*old(self)),
    {
        if !self.initialized || self.reload || self.restarted {
            self.phase = LookupPhase::Initializing;
            LookupAction::Initialize
        } else {
            self.phase = LookupPhase::Ended;
            LookupAction::Ready(None)
        }
    }

    /// Goes on once the process runs.
    fn start(&mut self) -> (action: LookupAction)
        ensures
            (*final(self), action@) == lookup_started(*old(self)),
    {
        if self.reload {
            self.phase = LookupPhase::Reloading;
            LookupAction::Reload
        } else {
            self.initialize()
        }
    }

    /// Ends the preparation with a failure.
    fn fail(&mut self, error: ProcessError) -> (action: LookupAction)
        ensures
            (*final(self), action@) == lookup_ended(*old(self), LookupActionView::Fail(error@)),
    {
        self.phase = LookupPhase::Ended;
        LookupAction::Fail(error)
    }

    /// Goes on after an event.
    pub fn advance(&mut self, event: CheckEvent) -> (action: LookupAction)
        ensures
            (*final(self), action@) == lookup_advanced(*old(self), event@),
    {
        match (self.phase, event) {
            (LookupPhase::Polling, CheckEvent::Exited(Ok(exited))) => {
                if exited {
                    self.phase = LookupPhase::Spawning;
                    LookupAction::Spawn
                } else {
                    self.start()
                }
            },
            (LookupPhase::Polling, CheckEvent::Exited(Err(error))) => self.fail(error),
            (LookupPhase::Spawning, CheckEvent::Spawned(Ok(_))) => {
                self.restarted = true;
                self.start()
            },
            (LookupPhase::Spawning, CheckEvent::Spawned(Err(error))) => self.fail(error),
            (LookupPhase::Reloading, CheckEvent::Answered(Ok(_))) => self.initialize(),
            (LookupPhase::Reloading, CheckEvent::Answered(Err(error))) => self.fail(error),
            (LookupPhase::Initializing, CheckEvent::Answered(Ok(result))) => {
                self.phase = LookupPhase::Ended;
                LookupAction::Ready(Some(result))
            },
            (LookupPhase::Initializing, CheckEvent::Answered(Err(error))) => self.fail(error),
            _ => lookup_step_in(self.phase),
        }
    }
}

/// Where something that is done to both processes stands.
#[derive(Debug, Clone, Copy, PartialEq, Eq, Structural)]
pub enum PairPhase {
    /// It is done to the checking process.
    Checker,
    /// It is done to the lax process.
    Lax,
    Ended,
}

/// The next step of something that is done to both processes.
#[derive(Debug)]
pub enum PairAction {
    /// Send the query to the lax process or the checking one.
    Send { lax: bool },
    /// Both processes have done it.
    Finish,
    /// A process has failed.
    Fail(ProcessError),
    /// Nothing: it was over before.
    Nothing,
}

/// The model of the next step of something that is done to both processes.
pub enum PairActionView {
    Send { lax: bool },
    Finish,
    Fail(ProcessErrorView),
    Nothing,
}

impl View for PairAction {
    type V = PairActionView;

    open spec fn view(&self) -> PairActionView {
        match *self {
            PairAction::Send { lax } => PairActionView::Send { lax },
            PairAction::Finish => PairActionView::Finish,
            PairAction::Fail(error) => PairActionView::Fail(error@),
            PairAction::Nothing => PairActionView::Nothing,
        }
    }
}

/// The model of what a process has made of a query.
pub open spec fn done_view(done: Result<(), ProcessError>) -> Result<(), ProcessErrorView> {
    match done {
        Ok(_) => Ok(()),
        Err(error) => Err(error@),
    }
}

/// The step that belongs to a phase of something that is done to both processes.
pub open spec fn pair_action_in(phase: PairPhase) -> PairActionView {
    match phase {
        PairPhase::Checker => PairActionView::Send { lax: false },
        PairPhase::Lax => PairActionView::Send { lax: true },
        PairPhase::Ended => PairActionView::Nothing,
    }
}

/// What comes after a process has done it or failed: the lax process follows the checking one, and
/// a failure ends everything.
pub open spec fn pair_advanced(phase: PairPhase, done: Result<(), ProcessErrorView>) -> (
    PairPhase,
    PairActionView,
) {
    match (phase, done) {
        (PairPhase::Ended, _) => (PairPhase::Ended, PairActionView::Nothing),
        (_, Err(error)) => (PairPhase::Ended, PairActionView::Fail(error)),
        (PairPhase::Checker, Ok(_)) => (PairPhase::Lax, PairActionView::Send { lax: true }),
        (PairPhase::Lax, Ok(_)) => (PairPhase::Ended, PairActionView::Finish),
    }
}

/// A query that is sent to both processes, the checking one first.
#[derive(Debug)]
pub struct PairCourse {
    pub phase: PairPhase,
    pub query: Json,
}

impl PairCourse {
    /// A query that has not been sent yet.
    pub fn new(query: Json) -> (course: PairCourse)
        ensures
            course.phase == PairPhase::Checker,
            course.query@ == query@,
    {
        PairCourse { phase: PairPhase::Checker, query }
    }

    /// The step that the course is at.
    pub fn action(&self) -> (action: PairAction)
        ensures
            action@ == pair_action_in(self.phase),
    {
        match self.phase {
            PairPhase::Checker => PairAction::Send { lax: false },
            PairPhase::Lax => PairAction::Send { lax: true },
            PairPhase::Ended => PairAction::Nothing,
        }
    }

    /// Goes on after a process has done it or failed.
    pub fn advance(&mut self, done: Result<(), ProcessError>) -> (action: PairAction)
        ensures
            (final(self).phase, action@) == pair_advanced(old(self).phase, done_view(done)),
            final(self).query@ == old(self).query@,
    {
        match self.phase {
            PairPhase::Ended => PairAction::Nothing,
            PairPhase::Checker => match done {
                Ok(_) => {
                    self.phase = PairPhase::Lax;
                    PairAction::Send { lax: true }
                },
                Err(error) => {
                    self.phase = PairPhase::Ended;
                    PairAction::Fail(error)
                },
            },
            PairPhase::Lax => {
                self.phase = PairPhase::Ended;
                match done {
                    Ok(_) => PairAction::Finish,
                    Err(error) => PairAction::Fail(error),
                }
            },
        }
    }
}

/// What is done to both processes is complete exactly when both have done it, the checking process
/// first; the first failure is the one that is reported, and the lax process is left alone where
/// the checking one has failed.
pub proof fn law_both_processes_are_reached(
    checker: Result<(), ProcessErrorView>,
    lax: Result<(), ProcessErrorView>,
)
    ensures
        ({
            let first = pair_advanced(PairPhase::Checker, checker);
            let second = pair_advanced(first.0, lax);
            &&& pair_action_in(PairPhase::Checker) == (PairActionView::Send { lax: false })
            &&& match checker {
                Ok(_) => first.1 == (PairActionView::Send { lax: true }) && second.1 == match lax {
                    Ok(_) => PairActionView::Finish,
                    Err(error) => PairActionView::Fail(error),
                },
                Err(error) => first.1 == PairActionView::Fail(error)
                    && second.1 is Nothing,
            }
        }),
{
}

/// A check that nothing disturbs tells its process what to forget, where the text has changed, asks
/// whether the process runs, reloads the dependencies, where they have changed, sends the query and
/// ends with the answer to it. Nothing is restarted.
pub proof fn law_undisturbed_checks_run_to_their_result(
    rollback: Option<(u32, u32)>,
    reload: bool,
    restarted: bool,
    told: Result<(), ProcessErrorView>,
    reloaded: FullBufferView,
    result: FullBufferView,
)
    ensures
        ({
            let start = CheckCourse { phase: first_phase(rollback), reload, restarted };
            let asked = match rollback {
                Some(_) => advanced(start, CheckEventView::RolledBack(told)).0,
                None => start,
            };
            let running = advanced(asked, CheckEventView::Exited(Ok(false)));
            let ready = if reload {
                advanced(running.0, CheckEventView::Answered(Ok(reloaded)))
            } else {
                running
            };
            let done = advanced(ready.0, CheckEventView::Answered(Ok(result)));
            &&& action_in(start.phase) == match rollback {
                Some(position) => CheckActionView::Cancel { position },
                None => CheckActionView::PollExit,
            }
            &&& action_in(asked.phase) == CheckActionView::PollExit
            &&& rollback is Some ==> advanced(start, CheckEventView::RolledBack(told)).1
                == CheckActionView::PollExit
            &&& reload ==> running.1 == CheckActionView::Reload
            &&& ready.1 == CheckActionView::Check
            &&& done.1 == CheckActionView::Finish(result)
            &&& action_in(done.0.phase) == CheckActionView::Nothing
            &&& done.0.restarted == restarted
        }),
{
}

/// A check whose process has exited starts a new one, reports that, and goes on with it as with one
/// that runs: it reloads the dependencies, where they have changed, and sends the query.
pub proof fn law_exited_processes_are_replaced(
    reload: bool,
    restarted: bool,
    reloaded: FullBufferView,
    result: FullBufferView,
)
    ensures
        ({
            let start = CheckCourse { phase: first_phase(None), reload, restarted };
            let exited = advanced(start, CheckEventView::Exited(Ok(true)));
            let running = advanced(exited.0, CheckEventView::Spawned(Ok(())));
            let ready = if reload {
                advanced(running.0, CheckEventView::Answered(Ok(reloaded)))
            } else {
                running
            };
            let done = advanced(ready.0, CheckEventView::Answered(Ok(result)));
            &&& exited.1 == CheckActionView::Spawn
            &&& reload ==> running.1 == CheckActionView::Reload
            &&& ready.1 == CheckActionView::Check
            &&& done.1 == CheckActionView::Finish(result)
            &&& done.0.restarted
        }),
{
}

/// A check whose process goes away while it checks is tried once more with a new process, and
/// reports that; where that one goes away too, or the process fails otherwise, the check fails with
/// the failure of the process.
pub proof fn law_lost_checks_are_tried_once_more(
    reload: bool,
    restarted: bool,
    failure: ProcessErrorView,
    reloaded: FullBufferView,
    second: ProcessErrorView,
    result: FullBufferView,
)
    ensures
        ({
            let course = CheckCourse {
                phase: CheckPhase::Checking { retry: false },
                reload,
                restarted,
            };
            let lost = advanced(course, CheckEventView::Answered(Err(failure)));
            let running = advanced(lost.0, CheckEventView::Spawned(Ok(())));
            let ready = if reload {
                advanced(running.0, CheckEventView::Answered(Ok(reloaded)))
            } else {
                running
            };
            if failure is ProcessExited || failure is SendError {
                &&& lost.1 == CheckActionView::Spawn
                &&& reload ==> running.1 == CheckActionView::Reload
                &&& ready.1 == CheckActionView::Check
                &&& advanced(ready.0, CheckEventView::Answered(Ok(result))).1
                    == CheckActionView::Finish(result)
                &&& advanced(ready.0, CheckEventView::Answered(Ok(result))).0.restarted
                &&& advanced(ready.0, CheckEventView::Answered(Err(second))).1
                    == CheckActionView::Fail(second)
            } else {
                &&& lost.1 == CheckActionView::Fail(failure)
                &&& action_in(lost.0.phase) == CheckActionView::Nothing
            }
        }),
{
}

/// A check fails with what has failed where the process cannot be asked whether it runs, a new one
/// cannot be started, or the dependencies cannot be reloaded. An event that a check does not wait for
/// changes nothing.
pub proof fn law_other_failures_end_a_check(
    course: CheckCourse,
    failure: ProcessErrorView,
    event: CheckEventView,
)
    ensures
        action_in(course.phase) is PollExit ==> advanced(
            course,
            CheckEventView::Exited(Err(failure)),
        ).1 == CheckActionView::Fail(failure),
        action_in(course.phase) is Spawn ==> advanced(
            course,
            CheckEventView::Spawned(Err(failure)),
        ).1 == CheckActionView::Fail(failure),
        action_in(course.phase) is Reload ==> advanced(
            course,
            CheckEventView::Answered(Err(failure)),
        ).1 == CheckActionView::Fail(failure),
        event is RolledBack && !(action_in(course.phase) is Cancel) || event is Exited && !(
        action_in(course.phase) is PollExit) || event is Spawned && !(action_in(
            course.phase,
        ) is Spawn) || event is Answered && !(action_in(course.phase) is Reload) && !(action_in(
            course.phase,
        ) is Check) ==> advanced(course, event) == (course, action_in(course.phase)),
{
}

/// A reload is the query of its own kind without a position; the check is the query that was asked
/// for, to the position that was asked for; no other step sends a query.
pub proof fn law_checks_send_what_was_asked_for(
    action: CheckActionView,
    kind: Seq<char>,
    to_position: Option<(u32, u32)>,
)
    ensures
        query_in(CheckActionView::Reload, kind, to_position) == Some(
            ("reload-deps"@, None::<(u32, u32)>),
        ),
        query_in(CheckActionView::Check, kind, to_position) == Some((kind, to_position)),
        !(action is Reload) && !(action is Check) ==> query_in(action, kind, to_position) is None,
{
}

/// A lookup is ready at once where its process runs, has looked at the buffer before and nothing has
/// changed. Otherwise the dependencies are reloaded, where they have changed, and the process looks
/// at the buffer first, without checking proofs.
pub proof fn law_lookups_are_prepared_where_needed(
    initialized: bool,
    reload: bool,
    exited: bool,
    reloaded: FullBufferView,
    result: FullBufferView,
)
    ensures
        ({
            let start = LookupCourse {
                phase: LookupPhase::Polling,
                initialized,
                reload,
                restarted: false,
            };
            let polled = lookup_advanced(start, CheckEventView::Exited(Ok(exited)));
            let running = if exited {
                lookup_advanced(polled.0, CheckEventView::Spawned(Ok(())))
            } else {
                polled
            };
            let ready = if reload {
                lookup_advanced(running.0, CheckEventView::Answered(Ok(reloaded)))
            } else {
                running
            };
            &&& lookup_action_in(start.phase) == LookupActionView::PollExit
            &&& exited ==> polled.1 == LookupActionView::Spawn
            &&& reload ==> running.1 == LookupActionView::Reload
            &&& if initialized && !reload && !exited {
                ready.1 == LookupActionView::Ready(None)
            } else {
                &&& ready.1 == LookupActionView::Initialize
                &&& lookup_advanced(ready.0, CheckEventView::Answered(Ok(result))).1
                    == LookupActionView::Ready(Some(result))
            }
            &&& ready.0.restarted == exited
        }),
        lookup_query_in(LookupActionView::Reload) == Some("reload-deps"@),
        lookup_query_in(LookupActionView::Initialize) == Some("lax"@),
{
}

/// The preparation of a lookup fails with what has failed, at any of its steps; no step but a reload
/// and a first look sends a query.
pub proof fn law_failed_preparations_end(
    course: LookupCourse,
    failure: ProcessErrorView,
    action: LookupActionView,
)
    ensures
        lookup_action_in(course.phase) is PollExit ==> lookup_advanced(
            course,
            CheckEventView::Exited(Err(failure)),
        ).1 == LookupActionView::Fail(failure),
        lookup_action_in(course.phase) is Spawn ==> lookup_advanced(
            course,
            CheckEventView::Spawned(Err(failure)),
        ).1 == LookupActionView::Fail(failure),
        lookup_action_in(course.phase) is Reload || lookup_action_in(course.phase) is Initialize
            ==> lookup_advanced(course, CheckEventView::Answered(Err(failure))).1
            == LookupActionView::Fail(failure),
        !(action is Reload) && !(action is Initialize) ==> lookup_query_in(action) is None,
{
}

} // verus!
