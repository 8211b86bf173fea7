//! One F* IDE process: how it is started, which of its messages belong to which query, and what
//! a check of a buffer has brought so far.
use crate::fstar::config::{self, FStarConfig};
use crate::fstar::messages::{
    self, FStarRange, FStarRangeView, IdeDiagnostic, IdeDiagnosticView, IdeLookupResponse,
    IdeLookupView, IdeProofState, IdeProofStateView,
};
use crate::fstar::protocol::{self, FStarResponse, FStarResponseView};
use crate::json::{self, Json, JsonView};
use crate::locations::{self, Style};
use crate::text;
use std::collections::VecDeque;
use vstd::prelude::*;

verus! {

/// How many messages that no query has asked for are kept.
pub const MAX_PENDING: usize = 1024;

/// How often a start is tried again.
pub const MAX_RETRIES: u32 = 3;

/// The operating system's number for an executable that is being written.
pub const TEXT_FILE_BUSY: i32 = 26;

/// Why a request to the process failed.
#[derive(Debug)]
pub enum ProcessError {
    /// The operating system refused an operation; the text says why.
    SpawnError(String),
    ExecutableNotFound(String),
    ProcessExited(Option<i32>),
    SendError(String),
    NoFullBufferSupport,
    Timeout,
}

/// The model of a process error.
pub enum ProcessErrorView {
    SpawnError(Seq<char>),
    ExecutableNotFound(Seq<char>),
    ProcessExited(Option<i32>),
    SendError(Seq<char>),
    NoFullBufferSupport,
    Timeout,
}

impl View for ProcessError {
    type V = ProcessErrorView;

    open spec fn view(&self) -> ProcessErrorView {
        match *self {
            ProcessError::SpawnError(reason) => ProcessErrorView::SpawnError(reason@),
            ProcessError::ExecutableNotFound(executable) => ProcessErrorView::ExecutableNotFound(
                executable@,
            ),
            ProcessError::ProcessExited(code) => ProcessErrorView::ProcessExited(code),
            ProcessError::SendError(reason) => ProcessErrorView::SendError(reason@),
            ProcessError::NoFullBufferSupport => ProcessErrorView::NoFullBufferSupport,
            ProcessError::Timeout => ProcessErrorView::Timeout,
        }
    }
}

/// The text of an exit code that may be missing.
pub open spec fn exit_code_text(code: Option<i32>) -> Seq<char> {
    match code {
        Some(number) => "Some("@ + text::integer_of(number as int) + ")"@,
        None => "None"@,
    }
}

/// The message of a process error.
pub open spec fn process_error_text(error: ProcessErrorView) -> Seq<char> {
    match error {
        ProcessErrorView::SpawnError(reason) => "Failed to spawn F* process: "@ + reason,
        ProcessErrorView::ExecutableNotFound(executable) => "F* executable not found: "@
            + executable,
        ProcessErrorView::ProcessExited(code) => "F* process exited unexpectedly with code "@
            + exit_code_text(code),
        ProcessErrorView::SendError(reason) => "Failed to send message to F*: "@ + reason,
        ProcessErrorView::NoFullBufferSupport => "F* does not support full-buffer mode"@,
        ProcessErrorView::Timeout => "Query timed out"@,
    }
}

impl ProcessError {
    /// The message to show for the error.
    pub fn message(&self) -> (message: String)
        ensures
            message@ == process_error_text(self@),
    {
        match self {
            ProcessError::SpawnError(reason) => {
                "Failed to spawn F* process: ".to_owned().concat(reason.as_str())
            },
            ProcessError::ExecutableNotFound(executable) => {
                "F* executable not found: ".to_owned().concat(executable.as_str())
            },
            ProcessError::ProcessExited(code) => {
                let shown = match code {
                    Some(number) => "Some(".to_owned().concat(
                        text::integer(*number as i64).as_str(),
                    ).concat(")"),
                    None => "None".to_owned(),
                };
                "F* process exited unexpectedly with code ".to_owned().concat(shown.as_str())
            },
            ProcessError::SendError(reason) => {
                "Failed to send message to F*: ".to_owned().concat(reason.as_str())
            },
            ProcessError::NoFullBufferSupport => "F* does not support full-buffer mode".to_owned(),
            ProcessError::Timeout => "Query timed out".to_owned(),
        }
    }
}

/// How far the check of a fragment has come.
#[derive(Debug, Clone, Copy, PartialEq, Eq, Structural)]
pub enum FragmentStatus {
    Verified,
    LaxOk,
    Failed,
    InProgress,
}

/// A fragment of a buffer and how far its check has come.
#[derive(Debug)]
pub struct FragmentResult {
    pub range: FStarRange,
    pub status: FragmentStatus,
}

/// The model of a fragment.
pub struct FragmentView {
    pub range: FStarRangeView,
    pub status: FragmentStatus,
}

impl View for FragmentResult {
    type V = FragmentView;

    open spec fn view(&self) -> FragmentView {
        FragmentView { range: self.range@, status: self.status }
    }
}

impl FragmentResult {
    /// A copy of the fragment.
    pub fn copy(&self) -> (copy: FragmentResult)
        ensures
            copy@ == self@,
    {
        FragmentResult { range: self.range.copy(), status: self.status }
    }
}

/// The models of a list of fragments.
pub open spec fn fragments_view(fragments: Seq<FragmentResult>) -> Seq<FragmentView> {
    Seq::new(fragments.len(), |i: int| fragments[i]@)
}

/// A copy of a list of fragments.
pub fn copy_fragments(fragments: &Vec<FragmentResult>) -> (copy: Vec<FragmentResult>)
    ensures
        fragments_view(copy@) == fragments_view(fragments@),
{
    let mut copy: Vec<FragmentResult> = Vec::new();
    let mut index: usize = 0;
    while index < fragments.len()
        invariant
            index <= fragments@.len(),
            fragments_view(copy@) == fragments_view(fragments@).take(index as int),
        decreases fragments@.len() - index,
    {
        let ghost before = fragments_view(copy@);
        copy.push(fragments[index].copy());
        assert(fragments_view(copy@) =~= before.push(fragments@[index as int]@));
        assert(fragments_view(copy@) =~= fragments_view(fragments@).take(index + 1));
        index += 1;
    }
    assert(fragments_view(fragments@).take(index as int) =~= fragments_view(fragments@));
    copy
}

/// What the check of a buffer has brought.
#[derive(Debug)]
pub struct FullBufferResult {
    pub diagnostics: Vec<IdeDiagnostic>,
    pub fragments: Vec<FragmentResult>,
    pub proof_states: Vec<IdeProofState>,
    pub finished: bool,
    pub timed_out: bool,
}

/// The model of what the check of a buffer has brought.
pub struct FullBufferView {
    pub diagnostics: Seq<IdeDiagnosticView>,
    pub fragments: Seq<FragmentView>,
    pub proof_states: Seq<IdeProofStateView>,
    pub finished: bool,
    pub timed_out: bool,
}

impl View for FullBufferResult {
    type V = FullBufferView;

    open spec fn view(&self) -> FullBufferView {
        FullBufferView {
            diagnostics: messages::diagnostics_view(self.diagnostics@),
            fragments: fragments_view(self.fragments@),
            proof_states: messages::proof_states_view(self.proof_states@),
            finished: self.finished,
            timed_out: self.timed_out,
        }
    }
}

/// A check that has brought nothing yet.
pub open spec fn nothing_checked() -> FullBufferView {
    FullBufferView {
        diagnostics: Seq::empty(),
        fragments: Seq::empty(),
        proof_states: Seq::empty(),
        finished: false,
        timed_out: false,
    }
}

impl Default for FullBufferResult {
    fn default() -> (result: FullBufferResult)
        ensures
            result@ == nothing_checked(),
    {
        let result = FullBufferResult {
            diagnostics: Vec::new(),
            fragments: Vec::new(),
            proof_states: Vec::new(),
            finished: false,
            timed_out: false,
        };
        assert(result@.diagnostics =~= Seq::empty());
        assert(result@.fragments =~= Seq::empty());
        assert(result@.proof_states =~= Seq::empty());
        result
    }
}

/// The last place in `fragments` with the range, or -1.
pub open spec fn last_with(fragments: Seq<FragmentView>, range: FStarRangeView) -> int
    decreases fragments.len(),
{
    if fragments.len() == 0 {
        -1
    } else if fragments.last().range == range {
        fragments.len() - 1
    } else {
        last_with(fragments.drop_last(), range)
    }
}

/// `fragments` with the status at `index` set.
pub open spec fn with_status(
    fragments: Seq<FragmentView>,
    index: int,
    status: FragmentStatus,
) -> Seq<FragmentView> {
    fragments.update(index, FragmentView { range: fragments[index].range, status })
}

/// `fragments` after a report. It is about the last fragment with its range, which is a new one
/// where there is none yet; a report without a range is about the last fragment.
pub open spec fn recorded(
    fragments: Seq<FragmentView>,
    range: Option<FStarRangeView>,
    status: FragmentStatus,
) -> Seq<FragmentView> {
    match range {
        Some(reported) => if last_with(fragments, reported) >= 0 {
            with_status(fragments, last_with(fragments, reported), status)
        } else {
            fragments.push(FragmentView { range: reported, status })
        },
        None => if fragments.len() > 0 {
            with_status(fragments, fragments.len() - 1, status)
        } else {
            fragments
        },
    }
}

/// True when no two fragments have the same range.
pub open spec fn distinct_ranges(fragments: Seq<FragmentView>) -> bool {
    forall|i: int, j: int|
        0 <= i < j < fragments.len() ==> (#[trigger] fragments[i]).range != (
        #[trigger] fragments[j]).range
}

/// The place that `last_with` gives holds the range, and no later one does.
pub proof fn lemma_last_with(fragments: Seq<FragmentView>, range: FStarRangeView)
    ensures
        -1 <= last_with(fragments, range) < fragments.len(),
        last_with(fragments, range) >= 0 ==> fragments[last_with(fragments, range)].range == range,
        forall|i: int|
            last_with(fragments, range) < i < fragments.len() ==> (
            #[trigger] fragments[i]).range != range,
    decreases fragments.len(),
{
    if fragments.len() > 0 && fragments.last().range != range {
        let rest = fragments.drop_last();
        lemma_last_with(rest, range);
        assert forall|i: int| last_with(fragments, range) < i < fragments.len() implies (
        #[trigger] fragments[i]).range != range by {
            if i < rest.len() {
                assert(rest[i] == fragments[i]);
            }
        }
    }
}

/// However the reports come, a check lists each range at most once, loses no fragment that it has
/// listed, and keeps their order.
pub proof fn law_fragments_are_kept_once(
    fragments: Seq<FragmentView>,
    range: Option<FStarRangeView>,
    status: FragmentStatus,
)
    requires
        distinct_ranges(fragments),
    ensures
        distinct_ranges(recorded(fragments, range, status)),
        recorded(fragments, range, status).len() >= fragments.len(),
        forall|i: int|
            0 <= i < fragments.len() ==> (#[trigger] recorded(fragments, range, status)[i]).range
                == fragments[i].range,
        range is Some ==> exists|i: int|
            0 <= i < recorded(fragments, range, status).len() && #[trigger] recorded(
                fragments,
                range,
                status,
            )[i] == (FragmentView { range: range->0, status }),
{
    let after = recorded(fragments, range, status);
    if range is Some {
        lemma_last_with(fragments, range->0);
        let place = last_with(fragments, range->0);
        let at = if place >= 0 {
            place
        } else {
            fragments.len() as int
        };
        assert(after[at] == (FragmentView { range: range->0, status }));
    }
    assert forall|i: int, j: int| 0 <= i < j < after.len() implies (#[trigger] after[i]).range != (
    #[trigger] after[j]).range by {
        if j < fragments.len() {
            assert(fragments[i].range != fragments[j].range);
        } else {
            assert(after[i].range == fragments[i].range);
        }
    }
}

/// Takes a report on a fragment into account.
pub fn record_fragment(
    fragments: &mut Vec<FragmentResult>,
    range: Option<FStarRange>,
    status: FragmentStatus,
)
    ensures
        fragments_view(final(fragments)@) == recorded(
            fragments_view(old(fragments)@),
            messages::opt_range(range),
            status,
        ),
{
    let ghost before = fragments_view(fragments@);
    match range {
        Some(reported) => {
            let mut index: usize = fragments.len();
            assert(before.take(index as int) =~= before);
            while index > 0
                invariant
                    index <= fragments@.len(),
                    before == fragments_view(fragments@),
                    last_with(before, reported@) == last_with(
                        before.take(index as int),
                        reported@,
                    ),
                    *fragments == *old(fragments),
                    range == Some(reported),
                    fragments_view(old(fragments)@) == before,
                decreases index,
            {
                assert(before.take(index as int).last() == fragments@[index - 1]@);
                assert(before.take(index as int).drop_last() =~= before.take(index - 1));
                if fragments[index - 1].range.same(&reported) {
                    let found = FragmentResult { range: reported, status };
                    fragments.set(index - 1, found);
                    assert(fragments_view(fragments@) =~= with_status(before, index - 1, status));
                    return ;
                }
                index -= 1;
            }
            assert(before.take(0) =~= Seq::empty());
            let fresh = FragmentResult { range: reported, status };
            fragments.push(fresh);
            assert(fragments_view(fragments@) =~= before.push(fresh@));
        },
        None => {
            let count: usize = fragments.len();
            if count > 0 {
                let last = FragmentResult { range: fragments[count - 1].range.copy(), status };
                fragments.set(count - 1, last);
                assert(fragments_view(fragments@) =~= with_status(before, count - 1, status));
            }
        },
    }
}

/// The identifier of the query that a message belongs to.
pub open spec fn message_query(response: FStarResponseView) -> Option<Seq<char>> {
    match response {
        FStarResponseView::Response(answer) => Some(answer.query_id),
        FStarResponseView::Progress { query_id, .. } => Some(query_id),
        FStarResponseView::ProofState { query_id, .. } => Some(query_id),
        FStarResponseView::StatusMessage { query_id, .. } => Some(query_id),
        FStarResponseView::ProtocolInfo(_) => None,
    }
}

/// The identifier of the query that a message belongs to.
pub fn response_query_id(response: &FStarResponse) -> (query_id: Option<&str>)
    ensures
        text::opt_str_text(query_id) == message_query(response@),
{
    match response {
        FStarResponse::Response(answer) => Some(answer.query_id.as_str()),
        FStarResponse::Progress { query_id, .. } => Some(query_id.as_str()),
        FStarResponse::ProofState { query_id, .. } => Some(query_id.as_str()),
        FStarResponse::StatusMessage { query_id, .. } => Some(query_id.as_str()),
        FStarResponse::ProtocolInfo(_) => None,
    }
}

/// The part of an identifier in front of its first dot.
pub open spec fn root_of(id: Seq<char>) -> Seq<char> {
    id.take(text::position_of(id, '.') as int)
}

/// True when a message with the one identifier belongs to the query with the other. Subqueries
/// have the identifier of their query in front of a dot.
pub open spec fn id_matches(
    response_id: Seq<char>,
    query_id: Seq<char>,
    include_subqueries: bool,
) -> bool {
    if include_subqueries {
        root_of(response_id) == query_id
    } else {
        response_id == query_id
    }
}

/// True when a message with the one identifier belongs to the query with the other.
pub fn query_id_matches(response_id: &str, query_id: &str, include_subqueries: bool) -> (matches:
    bool)
    ensures
        matches == id_matches(response_id@, query_id@, include_subqueries),
{
    if include_subqueries {
        let chars = text::chars_of(response_id);
        let end: usize = text::find_char(&chars, 0, '.');
        let root = text::substring(&chars, 0, end);
        assert(response_id@.skip(0) =~= response_id@);
        assert(response_id@.subrange(0, end as int) =~= root_of(response_id@));
        text::same(root.as_str(), query_id)
    } else {
        text::same(response_id, query_id)
    }
}

/// A decimal number holds no dot.
proof fn lemma_decimal_root(number: nat, tail: Seq<char>)
    requires
        tail.len() == 0 || tail[0] == '.',
    ensures
        root_of(text::decimal_of(number) + tail) == text::decimal_of(number),
{
    let digits = text::decimal_of(number);
    text::lemma_decimal(number);
    assert forall|i: int| 0 <= i < digits.len() implies (digits + tail)[i] != '.' by {
        assert(text::is_digit(digits[i]));
    }
    text::lemma_position_is(digits + tail, '.', digits.len() as int);
    assert((digits + tail).take(digits.len() as int) =~= digits);
}

/// The identifiers that a process is given are roots of their own: a message of one query, or of
/// one of its subqueries, belongs to no other query, even where one identifier starts with the
/// other.
pub proof fn law_queries_do_not_mix(query: nat, other: nat, subquery: Seq<char>)
    ensures
        id_matches(text::decimal_of(query), text::decimal_of(other), true) == (query == other),
        id_matches(text::decimal_of(query), text::decimal_of(other), false) == (query == other),
        id_matches(text::decimal_of(query) + seq!['.'] + subquery, text::decimal_of(other), true)
            == (query == other),
        !id_matches(text::decimal_of(query) + seq!['.'] + subquery, text::decimal_of(other), false),
{
    text::lemma_decimal(query);
    text::lemma_decimal(other);
    lemma_decimal_root(query, Seq::empty());
    assert(text::decimal_of(query) + Seq::<char>::empty() =~= text::decimal_of(query));
    let tail = seq!['.'] + subquery;
    lemma_decimal_root(query, tail);
    let full = text::decimal_of(query) + seq!['.'] + subquery;
    assert(text::decimal_of(query) + tail =~= full);
    if full == text::decimal_of(other) {
        let place = text::decimal_of(query).len() as int;
        assert(full[place] == '.');
        assert(text::is_digit(text::decimal_of(other)[place]));
    }
}

/// Hands out the identifiers of queries.
#[derive(Debug)]
pub struct FStarProcessControl {
    pub next: u64,
}

impl FStarProcessControl {
    /// Starts with the identifier 1.
    pub fn new() -> (control: FStarProcessControl)
        ensures
            control.next == 1,
    {
        FStarProcessControl { next: 1 }
    }

    /// The identifier of the next query.
    pub fn next_query_id(&mut self) -> (query_id: String)
        ensures
            query_id@ == text::decimal_of(old(self).next as nat),
            final(self).next == (if old(self).next == u64::MAX {
                0
            } else {
                old(self).next + 1
            }),
    {
        let number = self.next;
        self.next = number.wrapping_add(1);
        text::decimal(number)
    }

    /// The message that cancels from a position on.
    pub fn cancel(&mut self, position: (u32, u32)) -> (message: Json)
        ensures
            message@ == protocol::cancel_value(
                text::decimal_of(old(self).next as nat),
                position,
            ),
            final(self).next == (if old(self).next == u64::MAX {
                0
            } else {
                old(self).next + 1
            }),
    {
        let query_id = self.next_query_id();
        protocol::cancel_query(query_id.as_str(), position)
    }

    /// The message for a query, and the identifier that it carries.
    pub fn send_query(&mut self, query: Json) -> (sent: (String, Json))
        requires
            protocol::is_query(query@),
        ensures
            sent.0@ == text::decimal_of(old(self).next as nat),
            sent.1@ == protocol::identified(query@, sent.0@),
            final(self).next == (if old(self).next == u64::MAX {
                0
            } else {
                old(self).next + 1
            }),
    {
        let query_id = self.next_query_id();
        let message = protocol::identify(query, query_id.as_str());
        (query_id, message)
    }
}

/// The models of a list of messages.
pub open spec fn responses_view(responses: Seq<FStarResponse>) -> Seq<FStarResponseView> {
    Seq::new(responses.len(), |i: int| responses[i]@)
}

/// True when a message belongs to a query.
pub open spec fn belongs(
    response: FStarResponseView,
    query_id: Seq<char>,
    include_subqueries: bool,
) -> bool {
    match message_query(response) {
        Some(id) => id_matches(id, query_id, include_subqueries),
        None => false,
    }
}

/// The place of the first message that belongs to the query, or the number of messages.
pub open spec fn first_belonging(
    pending: Seq<FStarResponseView>,
    query_id: Seq<char>,
    include_subqueries: bool,
) -> nat
    decreases pending.len(),
{
    if pending.len() == 0 || belongs(pending[0], query_id, include_subqueries) {
        0
    } else {
        1 + first_belonging(pending.skip(1), query_id, include_subqueries)
    }
}

/// The messages that are kept once `response` is kept too: the oldest one leaves where there would
/// be too many.
pub open spec fn kept(pending: Seq<FStarResponseView>, response: FStarResponseView) -> Seq<
    FStarResponseView,
> {
    if pending.len() == MAX_PENDING {
        pending.skip(1).push(response)
    } else {
        pending.push(response)
    }
}

/// What `first_belonging` gives is the first place of its kind.
pub proof fn lemma_first_belonging(
    pending: Seq<FStarResponseView>,
    query_id: Seq<char>,
    include_subqueries: bool,
)
    ensures
        first_belonging(pending, query_id, include_subqueries) <= pending.len(),
        first_belonging(pending, query_id, include_subqueries) < pending.len() ==> belongs(
            pending[first_belonging(pending, query_id, include_subqueries) as int],
            query_id,
            include_subqueries,
        ),
        forall|i: int|
            0 <= i < first_belonging(pending, query_id, include_subqueries) ==> !belongs(
                #[trigger] pending[i],
                query_id,
                include_subqueries,
            ),
    decreases pending.len(),
{
    if pending.len() > 0 && !belongs(pending[0], query_id, include_subqueries) {
        let rest = pending.skip(1);
        lemma_first_belonging(rest, query_id, include_subqueries);
        assert forall|i: int|
            0 <= i < first_belonging(pending, query_id, include_subqueries) implies !belongs(
            #[trigger] pending[i],
            query_id,
            include_subqueries,
        ) by {
            if i > 0 {
                assert(rest[i - 1] == pending[i]);
            }
        }
    }
}

/// Keeping a message keeps their number within the bound, loses nothing below it, and above it
/// only the oldest.
pub proof fn law_unclaimed_messages_wait_in_order(
    pending: Seq<FStarResponseView>,
    response: FStarResponseView,
)
    requires
        pending.len() <= 1024,
    ensures
        0 < kept(pending, response).len() <= 1024,
        kept(pending, response).last() == response,
        pending.len() < 1024 ==> kept(pending, response).drop_last() == pending,
        pending.len() == 1024 ==> kept(pending, response).drop_last() == pending.skip(1),
{
    assert(kept(pending, response).drop_last() =~= if pending.len() < MAX_PENDING {
        pending
    } else {
        pending.skip(1)
    });
}

/// True when a message belongs to a query.
pub fn response_matches(response: &FStarResponse, query_id: &str, include_subqueries: bool) -> (
    matches: bool)
    ensures
        matches == belongs(response@, query_id@, include_subqueries),
{
    match response_query_id(response) {
        Some(id) => query_id_matches(id, query_id, include_subqueries),
        None => false,
    }
}

/// What is known of a process, and the messages that no query has asked for yet.
#[derive(Debug)]
pub struct FStarProcess {
    pub pending_responses: VecDeque<FStarResponse>,
    pub supports_full_buffer: bool,
    pub ide_version: i32,
}

/// The model of a process.
pub struct FStarProcessView {
    pub pending: Seq<FStarResponseView>,
    pub supports_full_buffer: bool,
    pub ide_version: i32,
}

impl View for FStarProcess {
    type V = FStarProcessView;

    open spec fn view(&self) -> FStarProcessView {
        FStarProcessView {
            pending: responses_view(self.pending_responses@),
            supports_full_buffer: self.supports_full_buffer,
            ide_version: self.ide_version,
        }
    }
}

/// `process` with other waiting messages.
pub open spec fn with_pending(
    process: FStarProcessView,
    pending: Seq<FStarResponseView>,
) -> FStarProcessView {
    FStarProcessView { pending, ..process }
}

impl FStarProcess {
    /// Takes the first waiting message that belongs to the query.
    pub fn take_pending(&mut self, query_id: &str, include_subqueries: bool) -> (found: Option<
        FStarResponse,
    >)
        ensures
            ({
                let pending = old(self)@.pending;
                let place = first_belonging(pending, query_id@, include_subqueries);
                match found {
                    Some(response) => {
                        &&& place < pending.len()
                        &&& response@ == pending[place as int]
                        &&& final(self)@ == with_pending(old(self)@, pending.remove(place as int))
                    },
                    None => place == pending.len() && final(self)@ == old(self)@,
                }
            }),
    {
        let ghost pending = self@.pending;
        let ghost place = first_belonging(pending, query_id@, include_subqueries);
        let mut index: usize = 0;
        let count: usize = self.pending_responses.len();
        assert(pending.skip(0) =~= pending);
        while index < count
            invariant
                index <= count == pending.len(),
                pending == self@.pending,
                *self == *old(self),
                place == first_belonging(pending, query_id@, include_subqueries),
                place == index + first_belonging(
                    pending.skip(index as int),
                    query_id@,
                    include_subqueries,
                ),
            decreases count - index,
        {
            assert(pending.skip(index as int)[0] == self.pending_responses@[index as int]@);
            if response_matches(&self.pending_responses[index], query_id, include_subqueries) {
                let found = self.pending_responses.remove(index);
                assert(self@.pending =~= pending.remove(index as int));
                return found;
            }
            assert(pending.skip(index as int).skip(1) =~= pending.skip(index + 1));
            index += 1;
        }
        None
    }

    /// Hands a message that has come in to the query, where it belongs to it, and keeps it
    /// otherwise.
    pub fn sort_out(
        &mut self,
        response: FStarResponse,
        query_id: &str,
        include_subqueries: bool,
    ) -> (found: Option<FStarResponse>)
        ensures
            match found {
                Some(message) => {
                    &&& belongs(response@, query_id@, include_subqueries)
                    &&& message@ == response@
                    &&& final(self)@ == old(self)@
                },
                None => {
                    &&& !belongs(response@, query_id@, include_subqueries)
                    &&& final(self)@ == with_pending(
                        old(self)@,
                        kept(old(self)@.pending, response@),
                    )
                },
            },
    {
        if response_matches(&response, query_id, include_subqueries) {
            return Some(response);
        }
        let ghost pending = self@.pending;
        if self.pending_responses.len() == MAX_PENDING {
            let dropped = self.pending_responses.pop_front();
            assert(dropped is Some);
            assert(self@.pending =~= pending.skip(1));
        }
        let ghost waiting = self@.pending;
        self.pending_responses.push_back(response);
        assert(self@.pending =~= waiting.push(response@));
        None
    }
}

/// The status that a stage of a check reports of a fragment.
pub open spec fn stage_status(stage: Seq<char>) -> Option<FragmentStatus> {
    if stage == "full-buffer-fragment-started"@ {
        Some(FragmentStatus::InProgress)
    } else if stage == "full-buffer-fragment-ok"@ {
        Some(FragmentStatus::Verified)
    } else if stage == "full-buffer-fragment-lax-ok"@ {
        Some(FragmentStatus::LaxOk)
    } else if stage == "full-buffer-fragment-failed"@ {
        Some(FragmentStatus::Failed)
    } else {
        None
    }
}

/// The diagnostics that an answer carries, none where it carries something else.
pub open spec fn answer_diagnostics(response: Option<JsonView>) -> Seq<IdeDiagnosticView> {
    match response {
        Some(value) => match messages::diagnostics_in(value) {
            Some(diagnostics) => diagnostics,
            None => Seq::empty(),
        },
        None => Seq::empty(),
    }
}

/// What a check has brought once a message has been taken into account.
pub open spec fn collected(result: FullBufferView, response: FStarResponseView) -> FullBufferView {
    match response {
        FStarResponseView::Progress { stage, ranges, .. } => {
            if stage == "full-buffer-finished"@ {
                FullBufferView { finished: true, ..result }
            } else {
                match stage_status(stage) {
                    Some(status) => FullBufferView {
                        fragments: recorded(result.fragments, ranges, status),
                        ..result
                    },
                    None => result,
                }
            }
        },
        FStarResponseView::Response(answer) => FullBufferView {
            diagnostics: result.diagnostics + answer_diagnostics(answer.response),
            ..result
        },
        FStarResponseView::ProofState { proof_state, .. } => FullBufferView {
            proof_states: result.proof_states.push(proof_state),
            ..result
        },
        _ => result,
    }
}

/// The status that a stage of a check reports of a fragment.
fn read_stage(stage: &str) -> (status: Option<FragmentStatus>)
    ensures
        status == stage_status(stage@),
{
    if text::same(stage, "full-buffer-fragment-started") {
        Some(FragmentStatus::InProgress)
    } else if text::same(stage, "full-buffer-fragment-ok") {
        Some(FragmentStatus::Verified)
    } else if text::same(stage, "full-buffer-fragment-lax-ok") {
        Some(FragmentStatus::LaxOk)
    } else if text::same(stage, "full-buffer-fragment-failed") {
        Some(FragmentStatus::Failed)
    } else {
        None
    }
}

impl FullBufferResult {
    /// Takes a message of the check into account.
    pub fn collect(&mut self, response: FStarResponse)
        ensures
            final(self)@ == collected(old(self)@, response@),
    {
        let ghost before = self@;
        match response {
            FStarResponse::Progress { query_id: _, stage, ranges } => {
                if text::same(stage.as_str(), "full-buffer-finished") {
                    self.finished = true;
                } else {
                    match read_stage(stage.as_str()) {
                        Some(status) => record_fragment(&mut self.fragments, ranges, status),
                        None => {},
                    }
                }
            },
            FStarResponse::Response(answer) => {
                let found = match &answer.response {
                    Some(value) => messages::decode_diagnostics(value),
                    None => None,
                };
                match found {
                    Some(list) => {
                        let mut diagnostics = list;
                        let ghost added = messages::diagnostics_view(diagnostics@);
                        self.diagnostics.append(&mut diagnostics);
                        assert(self@.diagnostics =~= before.diagnostics + added);
                    },
                    None => {
                        assert(before.diagnostics + Seq::<IdeDiagnosticView>::empty()
                            =~= before.diagnostics);
                    },
                }
            },
            FStarResponse::ProofState { query_id: _, proof_state } => {
                self.proof_states.push(proof_state);
                assert(self@.proof_states =~= before.proof_states.push(proof_state@));
            },
            _ => {},
        }
    }

    /// Where a check that takes too long is cancelled: at the start of its last fragment, or at
    /// the start of the buffer.
    pub fn cancel_position(&self) -> (position: (u32, u32))
        ensures
            position == cancel_point(self@.fragments),
    {
        if self.fragments.len() > 0 {
            self.fragments[self.fragments.len() - 1].range.beg
        } else {
            (1, 0)
        }
    }
}

/// Where a check that takes too long is cancelled.
pub open spec fn cancel_point(fragments: Seq<FragmentView>) -> (u32, u32) {
    if fragments.len() > 0 {
        fragments.last().range.beg
    } else {
        (1, 0)
    }
}

/// A check of a buffer that is under way.
#[derive(Debug)]
pub struct BufferQuery {
    pub query_id: String,
    pub result: FullBufferResult,
}

/// What a query waits for.
#[derive(Debug)]
pub enum BufferEvent {
    /// A message has come in.
    Message(FStarResponse),
    /// The process has closed its output.
    Closed,
    /// The time for the check is over.
    DeadlinePassed,
}

/// What is to be done for a check.
#[derive(Debug)]
pub enum BufferAction {
    /// Wait for the next event.
    Receive,
    /// Nothing more: the result is complete.
    Finished,
    /// Send a cancellation from the position on; the result is what there is.
    Cancel { position: (u32, u32) },
    /// Nothing more: the check has failed.
    Fail(ProcessError),
}

/// The model of what is to be done for a check.
pub enum BufferActionView {
    Receive,
    Finished,
    Cancel { position: (u32, u32) },
    Fail(ProcessErrorView),
}

impl View for BufferAction {
    type V = BufferActionView;

    open spec fn view(&self) -> BufferActionView {
        match *self {
            BufferAction::Receive => BufferActionView::Receive,
            BufferAction::Finished => BufferActionView::Finished,
            BufferAction::Cancel { position } => BufferActionView::Cancel { position },
            BufferAction::Fail(error) => BufferActionView::Fail(error@),
        }
    }
}

/// What is to be done once messages have been taken into account.
pub open spec fn next_action(result: FullBufferView) -> BufferActionView {
    if result.finished {
        BufferActionView::Finished
    } else {
        BufferActionView::Receive
    }
}

/// What a check has brought, and which messages still wait, once it has taken those that belong
/// to it, up to the one that ends it.
pub open spec fn drained(
    result: FullBufferView,
    pending: Seq<FStarResponseView>,
    query_id: Seq<char>,
) -> (FullBufferView, Seq<FStarResponseView>)
    decreases pending.len(),
{
    let place = first_belonging(pending, query_id, true);
    if result.finished || place >= pending.len() {
        (result, pending)
    } else {
        drained(
            collected(result, pending[place as int]),
            pending.remove(place as int),
            query_id,
        )
    }
}

impl FStarProcess {
    /// The query for a check of a buffer.
    pub fn full_buffer_query(
        &self,
        code: &str,
        kind: &str,
        to_position: Option<(u32, u32)>,
    ) -> (result: Result<Json, ProcessError>)
        ensures
            match result {
                Ok(query) => self@.supports_full_buffer && query@ == protocol::full_buffer_value(
                    code@,
                    kind@,
                    to_position,
                ),
                Err(error) => !self@.supports_full_buffer && error@
                    is NoFullBufferSupport,
            },
    {
        if !self.supports_full_buffer {
            return Err(ProcessError::NoFullBufferSupport);
        }
        Ok(protocol::full_buffer_query(code, kind, to_position))
    }

    /// Takes the waiting messages of a check into account.
    pub fn resume(&mut self, query: &mut BufferQuery) -> (action: BufferAction)
        ensures
            ({
                let (result, pending) = drained(
                    old(query).result@,
                    old(self)@.pending,
                    old(query).query_id@,
                );
                &&& final(query).result@ == result
                &&& final(query).query_id@ == old(query).query_id@
                &&& final(self)@ == with_pending(old(self)@, pending)
                &&& action@ == next_action(result)
            }),
    {
        loop
            invariant
                drained(query.result@, self@.pending, query.query_id@) == drained(
                    old(query).result@,
                    old(self)@.pending,
                    old(query).query_id@,
                ),
                query.query_id@ == old(query).query_id@,
                self@ == with_pending(old(self)@, self@.pending),
            decreases self@.pending.len(),
        {
            if query.result.finished {
                return BufferAction::Finished;
            }
            match self.take_pending(query.query_id.as_str(), true) {
                Some(response) => query.result.collect(response),
                None => return BufferAction::Receive,
            }
        }
    }

    /// Goes on with a check after an event.
    pub fn advance(&mut self, query: &mut BufferQuery, event: BufferEvent) -> (action: BufferAction)
        ensures
            final(query).query_id@ == old(query).query_id@,
            match event {
                BufferEvent::Message(response) => if belongs(
                    response@,
                    old(query).query_id@,
                    true,
                ) {
                    &&& final(query).result@ == collected(old(query).result@, response@)
                    &&& final(self)@ == old(self)@
                    &&& action@ == next_action(final(query).result@)
                } else {
                    &&& final(query).result@ == old(query).result@
                    &&& final(self)@ == with_pending(
                        old(self)@,
                        kept(old(self)@.pending, response@),
                    )
                    &&& action@ is Receive
                },
                BufferEvent::Closed => {
                    &&& final(query).result@ == old(query).result@
                    &&& final(self)@ == old(self)@
                    &&& action@ == BufferActionView::Fail(ProcessErrorView::ProcessExited(None))
                },
                BufferEvent::DeadlinePassed => {
                    &&& final(query).result@ == (FullBufferView {
                        timed_out: true,
                        ..old(query).result@
                    })
                    &&& final(self)@ == old(self)@
                    &&& action@ == (BufferActionView::Cancel {
                        position: cancel_point(old(query).result@.fragments),
                    })
                },
            },
    {
        match event {
            BufferEvent::Message(response) => {
                match self.sort_out(response, query.query_id.as_str(), true) {
                    Some(message) => {
                        query.result.collect(message);
                        if query.result.finished {
                            BufferAction::Finished
                        } else {
                            BufferAction::Receive
                        }
                    },
                    None => BufferAction::Receive,
                }
            },
            BufferEvent::Closed => BufferAction::Fail(ProcessError::ProcessExited(None)),
            BufferEvent::DeadlinePassed => {
                query.result.timed_out = true;
                BufferAction::Cancel { position: query.result.cancel_position() }
            },
        }
    }
}

/// The model of what a query waits for.
pub enum BufferEventView {
    Message(FStarResponseView),
    Closed,
    DeadlinePassed,
}

impl View for BufferEvent {
    type V = BufferEventView;

    open spec fn view(&self) -> BufferEventView {
        match *self {
            BufferEvent::Message(response) => BufferEventView::Message(response@),
            BufferEvent::Closed => BufferEventView::Closed,
            BufferEvent::DeadlinePassed => BufferEventView::DeadlinePassed,
        }
    }
}

/// The model of an event that may be missing.
pub open spec fn opt_event(event: Option<BufferEvent>) -> Option<BufferEventView> {
    match event {
        Some(found) => Some(found@),
        None => None,
    }
}

/// What has come of the wait for the answer to a query.
#[derive(Debug)]
pub enum Reception {
    /// Nothing yet: wait for the next event.
    Wait,
    /// The answer.
    Answer(FStarResponse),
    /// No answer in time.
    Expired,
    /// The process has gone away.
    Fail(ProcessError),
}

/// The model of what has come of the wait for an answer.
pub enum ReceptionView {
    Wait,
    Answer(FStarResponseView),
    Expired,
    Fail(ProcessErrorView),
}

impl View for Reception {
    type V = ReceptionView;

    open spec fn view(&self) -> ReceptionView {
        match *self {
            Reception::Wait => ReceptionView::Wait,
            Reception::Answer(response) => ReceptionView::Answer(response@),
            Reception::Expired => ReceptionView::Expired,
            Reception::Fail(error) => ReceptionView::Fail(error@),
        }
    }
}

/// The process after a step of the wait for an answer, and what has come of it. A wait begins
/// without an event, with the messages that have come in before.
pub open spec fn received(
    process: FStarProcessView,
    query_id: Seq<char>,
    include_subqueries: bool,
    event: Option<BufferEventView>,
) -> (FStarProcessView, ReceptionView) {
    match event {
        None => {
            let place = first_belonging(process.pending, query_id, include_subqueries);
            if place < process.pending.len() {
                (
                    with_pending(process, process.pending.remove(place as int)),
                    ReceptionView::Answer(process.pending[place as int]),
                )
            } else {
                (process, ReceptionView::Wait)
            }
        },
        Some(BufferEventView::Message(response)) => if belongs(
            response,
            query_id,
            include_subqueries,
        ) {
            (process, ReceptionView::Answer(response))
        } else {
            (with_pending(process, kept(process.pending, response)), ReceptionView::Wait)
        },
        Some(BufferEventView::Closed) => (
            process,
            ReceptionView::Fail(ProcessErrorView::ProcessExited(None)),
        ),
        Some(BufferEventView::DeadlinePassed) => (process, ReceptionView::Expired),
    }
}

/// The process and what has come of the wait for an answer after all events. What comes after the
/// wait is over is not looked at.
pub open spec fn received_all(
    process: FStarProcessView,
    query_id: Seq<char>,
    include_subqueries: bool,
    events: Seq<BufferEventView>,
) -> (FStarProcessView, ReceptionView)
    decreases events.len(),
{
    if events.len() == 0 {
        received(process, query_id, include_subqueries, None)
    } else {
        let (before, outcome) = received_all(
            process,
            query_id,
            include_subqueries,
            events.drop_last(),
        );
        if outcome is Wait {
            received(before, query_id, include_subqueries, Some(events.last()))
        } else {
            (before, outcome)
        }
    }
}

/// The last messages of a list, as many as are kept.
pub open spec fn latest(messages: Seq<FStarResponseView>) -> Seq<FStarResponseView> {
    if messages.len() <= MAX_PENDING {
        messages
    } else {
        messages.skip(messages.len() - MAX_PENDING)
    }
}

impl FStarProcess {
    /// Takes a step of the wait for the answer to a query: first without an event, then with each
    /// event until the wait is over.
    pub fn recv_matching(
        &mut self,
        query_id: &str,
        include_subqueries: bool,
        event: Option<BufferEvent>,
    ) -> (reception: Reception)
        ensures
            (final(self)@, reception@) == received(
                old(self)@,
                query_id@,
                include_subqueries,
                opt_event(event),
            ),
    {
        proof {
            lemma_first_belonging(self@.pending, query_id@, include_subqueries);
        }
        match event {
            None => match self.take_pending(query_id, include_subqueries) {
                Some(response) => Reception::Answer(response),
                None => Reception::Wait,
            },
            Some(BufferEvent::Message(response)) => {
                match self.sort_out(response, query_id, include_subqueries) {
                    Some(message) => Reception::Answer(message),
                    None => Reception::Wait,
                }
            },
            Some(BufferEvent::Closed) => Reception::Fail(ProcessError::ProcessExited(None)),
            Some(BufferEvent::DeadlinePassed) => Reception::Expired,
        }
    }
}

/// Where an answer has come in before the wait for it, it is the first of those that belong to the
/// query, it leaves its place, and nothing that comes in later is looked at.
pub proof fn law_earlier_answers_come_first(
    process: FStarProcessView,
    query_id: Seq<char>,
    include_subqueries: bool,
    events: Seq<BufferEventView>,
)
    requires
        first_belonging(process.pending, query_id, include_subqueries) < process.pending.len(),
    ensures
        ({
            let place = first_belonging(process.pending, query_id, include_subqueries) as int;
            received_all(process, query_id, include_subqueries, events) == (
                with_pending(process, process.pending.remove(place)),
                ReceptionView::Answer(process.pending[place]),
            )
        }),
    decreases events.len(),
{
    if events.len() > 0 {
        law_earlier_answers_come_first(
            process,
            query_id,
            include_subqueries,
            events.drop_last(),
        );
    }
}

/// While nothing that belongs to a query comes in, all messages wait in the order in which they
/// came, the oldest leaving where there are too many; the first one that belongs to the query is
/// its answer, a deadline that passes first is no answer, and a process that goes away first is a
/// failure.
pub proof fn law_first_matching_arrival_is_the_answer(
    process: FStarProcessView,
    query_id: Seq<char>,
    include_subqueries: bool,
    others: Seq<FStarResponseView>,
    last: BufferEventView,
)
    requires
        process.pending.len() <= MAX_PENDING,
        first_belonging(process.pending, query_id, include_subqueries) >= process.pending.len(),
        forall|i: int|
            0 <= i < others.len() ==> !belongs(#[trigger] others[i], query_id, include_subqueries),
    ensures
        ({
            let events = Seq::new(others.len(), |i: int| BufferEventView::Message(others[i]));
            let waiting = with_pending(process, latest(process.pending + others));
            &&& received_all(process, query_id, include_subqueries, events) == (
                waiting,
                ReceptionView::Wait,
            )
            &&& match last {
                BufferEventView::Message(response) => belongs(
                    response,
                    query_id,
                    include_subqueries,
                ) ==> received_all(process, query_id, include_subqueries, events.push(last)) == (
                    waiting,
                    ReceptionView::Answer(response),
                ),
                BufferEventView::DeadlinePassed => received_all(
                    process,
                    query_id,
                    include_subqueries,
                    events.push(last),
                ) == (waiting, ReceptionView::Expired),
                BufferEventView::Closed => received_all(
                    process,
                    query_id,
                    include_subqueries,
                    events.push(last),
                ) == (waiting, ReceptionView::Fail(ProcessErrorView::ProcessExited(None))),
            }
        }),
    decreases others.len(),
{
    let events = Seq::new(others.len(), |i: int| BufferEventView::Message(others[i]));
    if others.len() == 0 {
        assert(process.pending + others =~= process.pending);
        assert(with_pending(process, process.pending) == process);
    } else {
        let rest = others.drop_last();
        law_first_matching_arrival_is_the_answer(
            process,
            query_id,
            include_subqueries,
            rest,
            last,
        );
        assert(events.drop_last() =~= Seq::new(
            rest.len(),
            |i: int| BufferEventView::Message(rest[i]),
        ));
        assert(kept(latest(process.pending + rest), others.last()) =~= latest(
            process.pending + others,
        ));
    }
    let waiting = with_pending(process, latest(process.pending + others));
    assert(received_all(process, query_id, include_subqueries, events) == (
        waiting,
        ReceptionView::Wait,
    ));
    assert(events.push(last).drop_last() =~= events);
    assert(events.push(last).last() == last);
}

/// What a check has brought after all of its messages.
pub open spec fn collected_all(
    result: FullBufferView,
    responses: Seq<FStarResponseView>,
) -> FullBufferView
    decreases responses.len(),
{
    if responses.len() == 0 {
        result
    } else {
        collected(collected_all(result, responses.drop_last()), responses.last())
    }
}

/// Whatever messages a check gets, it lists each range once, and it is finished exactly when the
/// message that ends it has come.
pub proof fn law_results_are_well_formed(responses: Seq<FStarResponseView>)
    ensures
        forall|i: int, j: int|
            #![trigger collected_all(nothing_checked(), responses).fragments[i], collected_all(
                nothing_checked(),
                responses,
            ).fragments[j]]
            0 <= i < j < collected_all(nothing_checked(), responses).fragments.len()
                ==> collected_all(nothing_checked(), responses).fragments[i].range
                != collected_all(nothing_checked(), responses).fragments[j].range,
        !collected_all(nothing_checked(), responses).timed_out,
        collected_all(nothing_checked(), responses).finished <==> exists|i: int|
            0 <= i < responses.len() && match #[trigger] responses[i] {
                FStarResponseView::Progress { stage, .. } => stage == "full-buffer-finished"@,
                _ => false,
            },
    decreases responses.len(),
{
    if responses.len() > 0 {
        let rest = responses.drop_last();
        law_results_are_well_formed(rest);
        let before = collected_all(nothing_checked(), rest);
        let last = responses.last();
        match last {
            FStarResponseView::Progress { stage, ranges, .. } => {
                if stage_status(stage) is Some {
                    law_fragments_are_kept_once(
                        before.fragments,
                        ranges,
                        stage_status(stage)->0,
                    );
                }
            },
            _ => {},
        }
        let after = collected_all(nothing_checked(), responses);
        if after.finished {
            if before.finished {
                let i = choose|i: int|
                    0 <= i < rest.len() && match #[trigger] rest[i] {
                        FStarResponseView::Progress { stage, .. } => stage
                            == "full-buffer-finished"@,
                        _ => false,
                    };
                assert(responses[i] == rest[i]);
            } else {
                assert(is_final_message(responses[responses.len() - 1]));
            }
        }
        assert forall|i: int|
            0 <= i < responses.len() && is_final_message(
                #[trigger] responses[i],
            ) implies after.finished by {
            if i < rest.len() {
                assert(rest[i] == responses[i]);
            }
        }
    }
}

/// True for the message that ends a check.
pub open spec fn is_final_message(response: FStarResponseView) -> bool {
    match response {
        FStarResponseView::Progress { stage, .. } => stage == "full-buffer-finished"@,
        _ => false,
    }
}

/// Once a check has taken the waiting messages that belong to it, and is not finished, none of
/// those that still wait belongs to it, nor does one that is kept later.
pub proof fn law_no_message_of_the_check_waits(
    result: FullBufferView,
    pending: Seq<FStarResponseView>,
    query_id: Seq<char>,
    unclaimed: FStarResponseView,
)
    requires
        !drained(result, pending, query_id).0.finished,
        !belongs(unclaimed, query_id, true),
    ensures
        forall|i: int|
            0 <= i < drained(result, pending, query_id).1.len() ==> !belongs(
                #[trigger] drained(result, pending, query_id).1[i],
                query_id,
                true,
            ),
        forall|i: int|
            0 <= i < kept(drained(result, pending, query_id).1, unclaimed).len() ==> !belongs(
                #[trigger] kept(drained(result, pending, query_id).1, unclaimed)[i],
                query_id,
                true,
            ),
    decreases pending.len(),
{
    let place = first_belonging(pending, query_id, true);
    lemma_first_belonging(pending, query_id, true);
    if !result.finished && place < pending.len() {
        law_no_message_of_the_check_waits(
            collected(result, pending[place as int]),
            pending.remove(place as int),
            query_id,
            unclaimed,
        );
    } else {
        let after = kept(pending, unclaimed);
        assert forall|i: int| 0 <= i < after.len() implies !belongs(
            #[trigger] after[i],
            query_id,
            true,
        ) by {
            if i < after.len() - 1 {
                if pending.len() == MAX_PENDING {
                    assert(after[i] == pending[i + 1]);
                } else {
                    assert(after[i] == pending[i]);
                }
            }
        }
    }
}

/// A process that is to be started.
#[derive(Debug)]
pub struct Launch {
    pub program: String,
    pub arguments: Vec<String>,
    pub directory: String,
    pub attempts: u32,
}

/// Why a start has failed.
#[derive(Debug)]
pub enum LaunchFailure {
    /// There is no such executable.
    NotFound,
    /// Something else; the number is the operating system's, where it gives one.
    Other { os_error: Option<i32>, reason: String },
}

/// What is to be done after a start has failed.
#[derive(Debug)]
pub enum LaunchDecision {
    /// Try again after a moment.
    Retry,
    /// Give up.
    Fail(ProcessError),
}

/// What is known once a process has been started.
#[derive(Debug)]
pub enum StartEvent {
    /// The first message has come in.
    Message(FStarResponse),
    /// The process has closed its output.
    Closed,
    /// No message has come in time.
    DeadlinePassed,
}

/// True for a failure that passes by itself: the executable is being written. Only systems of the
/// Unix family report it.
pub open spec fn is_transient(os_error: Option<i32>, unix: bool) -> bool {
    unix && os_error == Some(TEXT_FILE_BUSY)
}

/// The process of which nothing is known yet.
pub open spec fn fresh_process() -> FStarProcessView {
    FStarProcessView { pending: Seq::empty(), supports_full_buffer: true, ide_version: 3 }
}

impl FStarProcess {
    /// How the process for a file is started.
    pub fn spawn(style: Style, config: &FStarConfig, file_path: &str, lax: bool) -> (launch: Launch)
        ensures
            launch.program@ == config::executable_of(config@),
            text::texts(launch.arguments@) == config::ide_arguments(config@, file_path@, lax),
            launch.directory@ == config::directory_or(
                config@,
                locations::directory_of(style, file_path@),
            ),
            launch.attempts == 0,
    {
        let directory = locations::directory(style, file_path);
        Launch {
            program: config.fstar_exe().to_owned(),
            arguments: config.build_args(file_path, lax),
            directory: config.cwd_or(directory.as_str()),
            attempts: 0,
        }
    }

    /// What the first message tells of a process. Where it is something else than the protocol
    /// information, the process is taken to support everything.
    pub fn wait_for_protocol_info(event: StartEvent) -> (result: Result<FStarProcess, ProcessError>)
        ensures
            match event {
                StartEvent::Message(response) => result is Ok && result->Ok_0@ == match response@ {
                    FStarResponseView::ProtocolInfo(info) => FStarProcessView {
                        supports_full_buffer: info.features.contains("full-buffer"@),
                        ide_version: info.version,
                        ..fresh_process()
                    },
                    _ => fresh_process(),
                },
                StartEvent::Closed => result is Err && result->Err_0@
                    == ProcessErrorView::ProcessExited(None),
                StartEvent::DeadlinePassed => result is Err && result->Err_0@ is Timeout,
            },
    {
        let mut process = FStarProcess {
            pending_responses: VecDeque::new(),
            supports_full_buffer: true,
            ide_version: 3,
        };
        assert(process@.pending =~= Seq::empty());
        match event {
            StartEvent::Message(FStarResponse::ProtocolInfo(info)) => {
                process.supports_full_buffer = info.supports_full_buffer();
                process.ide_version = info.version;
                Ok(process)
            },
            StartEvent::Message(_) => Ok(process),
            StartEvent::Closed => Err(ProcessError::ProcessExited(None)),
            StartEvent::DeadlinePassed => Err(ProcessError::Timeout),
        }
    }

    /// What an answer to an addition to the virtual file system means.
    pub fn vfs_add_outcome(reply: Option<FStarResponse>) -> (result: Result<(), ProcessError>)
        ensures
            result is Ok <==> reply is Some && reply->0@ is Response,
            result matches Err(error) ==> error@ is Timeout,
    {
        match reply {
            Some(FStarResponse::Response(_)) => Ok(()),
            _ => Err(ProcessError::Timeout),
        }
    }

    /// What an answer to a lookup means: the symbol or module that it describes, where it is a
    /// success that describes one.
    pub fn lookup_outcome(reply: Option<FStarResponse>) -> (result: Result<
        Option<IdeLookupResponse>,
        ProcessError,
    >)
        ensures
            match result {
                Ok(found) => {
                    &&& reply is Some
                    &&& reply->0@ is Response
                    &&& opt_lookup(found) == answered_lookup(reply->0@->Response_0)
                },
                Err(error) => !(reply is Some && reply->0@ is Response) && error@ is Timeout,
            },
    {
        match reply {
            Some(FStarResponse::Response(answer)) => {
                if text::same_option(text::borrow_option(&answer.status), Some("success")) {
                    match &answer.response {
                        Some(value) => Ok(IdeLookupResponse::decode(value)),
                        None => Ok(None),
                    }
                } else {
                    Ok(None)
                }
            },
            _ => Err(ProcessError::Timeout),
        }
    }
}

/// The model of what a lookup may have found.
pub open spec fn opt_lookup(found: Option<IdeLookupResponse>) -> Option<IdeLookupView> {
    match found {
        Some(lookup) => Some(lookup@),
        None => None,
    }
}

/// What an answer to a lookup describes.
pub open spec fn answered_lookup(answer: messages::IdeResponseView) -> Option<IdeLookupView> {
    if answer.status == Some("success"@) {
        match answer.response {
            Some(value) => messages::lookup_in(value),
            None => None,
        }
    } else {
        None
    }
}

impl Launch {
    /// What is to be done after the start has failed.
    pub fn after_failure(&mut self, failure: LaunchFailure, unix: bool) -> (decision: LaunchDecision)
        ensures
            final(self).program@ == old(self).program@,
            final(self).arguments@ == old(self).arguments@,
            final(self).directory@ == old(self).directory@,
            match failure {
                LaunchFailure::NotFound => {
                    &&& decision is Fail
                    &&& decision->Fail_0@ == ProcessErrorView::ExecutableNotFound(
                        old(self).program@,
                    )
                    &&& final(self).attempts == old(self).attempts
                },
                LaunchFailure::Other { os_error, reason } => if old(self).attempts < MAX_RETRIES
                    && is_transient(os_error, unix) {
                    decision is Retry && final(self).attempts == old(self).attempts + 1
                } else {
                    &&& decision is Fail
                    &&& decision->Fail_0@ == ProcessErrorView::SpawnError(reason@)
                    &&& final(self).attempts == old(self).attempts
                },
            },
    {
        match failure {
            LaunchFailure::NotFound => LaunchDecision::Fail(
                ProcessError::ExecutableNotFound(self.program.clone()),
            ),
            LaunchFailure::Other { os_error, reason } => {
                let transient = match os_error {
                    Some(number) => unix && number == TEXT_FILE_BUSY,
                    None => false,
                };
                if self.attempts < MAX_RETRIES && transient {
                    self.attempts += 1;
                    LaunchDecision::Retry
                } else {
                    LaunchDecision::Fail(ProcessError::SpawnError(reason))
                }
            },
        }
    }
}

/// A report on a range is about that range: the last fragment with it has the status that the stage
/// names, and it stands at the end where no fragment had the range. No other fragment changes, nor
/// does anything else that the check has brought.
pub proof fn law_reports_set_the_status_of_their_range(
    result: FullBufferView,
    query_id: Seq<char>,
    stage: Seq<char>,
    range: FStarRangeView,
    status: FragmentStatus,
    place: int,
)
    requires
        ({
            ||| stage == "full-buffer-fragment-started"@ && status is InProgress
            ||| stage == "full-buffer-fragment-ok"@ && status is Verified
            ||| stage == "full-buffer-fragment-lax-ok"@ && status is LaxOk
            ||| stage == "full-buffer-fragment-failed"@ && status is Failed
        }),
        0 <= place <= result.fragments.len(),
        place < result.fragments.len() ==> result.fragments[place].range == range,
        forall|i: int|
            place < i < result.fragments.len() ==> (#[trigger] result.fragments[i]).range != range,
        place == result.fragments.len() ==> forall|i: int|
            0 <= i < result.fragments.len() ==> (#[trigger] result.fragments[i]).range != range,
    ensures
        ({
            let before = result.fragments;
            let after = collected(
                result,
                FStarResponseView::Progress { query_id, stage, ranges: Some(range) },
            );
            &&& after.fragments.len() == if place < before.len() {
                before.len()
            } else {
                before.len() + 1
            }
            &&& after.fragments[place].range == range
            &&& after.fragments[place].status == status
            &&& forall|i: int|
                0 <= i < before.len() && i != place ==> #[trigger] after.fragments[i] == before[i]
            &&& after.diagnostics == result.diagnostics
            &&& after.proof_states == result.proof_states
            &&& after.finished == result.finished
            &&& after.timed_out == result.timed_out
        }),
{
    reveal_strlit("full-buffer-fragment-started");
    reveal_strlit("full-buffer-fragment-ok");
    reveal_strlit("full-buffer-fragment-lax-ok");
    reveal_strlit("full-buffer-fragment-failed");
    reveal_strlit("full-buffer-finished");
    assert("full-buffer-fragment-started"@.len() == 28);
    assert("full-buffer-fragment-ok"@.len() == 23);
    assert("full-buffer-fragment-lax-ok"@.len() == 27);
    assert("full-buffer-fragment-failed"@.len() == 27);
    assert("full-buffer-finished"@.len() == 20);
    assert("full-buffer-fragment-failed"@[21] == 'f');
    assert("full-buffer-fragment-lax-ok"@[21] == 'l');
    lemma_last_with(result.fragments, range);
    let found = last_with(result.fragments, range);
    if found >= 0 {
        assert(result.fragments[found].range == range);
    }
    assert(stage_status(stage) == Some(status));
    assert(recorded(result.fragments, Some(range), status) == (if place < result.fragments.len() {
        with_status(result.fragments, place, status)
    } else {
        result.fragments.push(FragmentView { range, status })
    }));
}

/// A report without a range is about the last fragment: it keeps its range and has the status that
/// the stage names. Where there is no fragment, nothing changes.
pub proof fn law_reports_without_a_range_are_about_the_last_fragment(
    result: FullBufferView,
    query_id: Seq<char>,
    stage: Seq<char>,
    status: FragmentStatus,
)
    requires
        ({
            ||| stage == "full-buffer-fragment-started"@ && status is InProgress
            ||| stage == "full-buffer-fragment-ok"@ && status is Verified
            ||| stage == "full-buffer-fragment-lax-ok"@ && status is LaxOk
            ||| stage == "full-buffer-fragment-failed"@ && status is Failed
        }),
    ensures
        ({
            let before = result.fragments;
            let after = collected(
                result,
                FStarResponseView::Progress { query_id, stage, ranges: None },
            );
            &&& after.fragments.len() == before.len()
            &&& before.len() > 0 ==> after.fragments.last().range == before.last().range
            &&& before.len() > 0 ==> after.fragments.last().status == status
            &&& forall|i: int|
                0 <= i < before.len() - 1 ==> #[trigger] after.fragments[i] == before[i]
            &&& after.diagnostics == result.diagnostics
            &&& after.proof_states == result.proof_states
            &&& after.finished == result.finished
            &&& after.timed_out == result.timed_out
        }),
{
    reveal_strlit("full-buffer-fragment-started");
    reveal_strlit("full-buffer-fragment-ok");
    reveal_strlit("full-buffer-fragment-lax-ok");
    reveal_strlit("full-buffer-fragment-failed");
    reveal_strlit("full-buffer-finished");
    assert("full-buffer-fragment-started"@.len() == 28);
    assert("full-buffer-fragment-ok"@.len() == 23);
    assert("full-buffer-fragment-lax-ok"@.len() == 27);
    assert("full-buffer-fragment-failed"@.len() == 27);
    assert("full-buffer-finished"@.len() == 20);
    assert("full-buffer-fragment-failed"@[21] == 'f');
    assert("full-buffer-fragment-lax-ok"@[21] == 'l');
    assert(stage_status(stage) == Some(status));
}

/// The stage that ends a check ends it and changes nothing else; a stage of another name changes
/// nothing.
pub proof fn law_only_known_stages_count(
    result: FullBufferView,
    query_id: Seq<char>,
    stage: Seq<char>,
    ranges: Option<FStarRangeView>,
)
    ensures
        ({
            let after = collected(
                result,
                FStarResponseView::Progress { query_id, stage, ranges },
            );
            &&& stage == "full-buffer-finished"@ ==> after == (FullBufferView {
                finished: true,
                ..result
            })
            &&& stage != "full-buffer-finished"@ && stage != "full-buffer-fragment-started"@
                && stage != "full-buffer-fragment-ok"@ && stage != "full-buffer-fragment-lax-ok"@
                && stage != "full-buffer-fragment-failed"@ ==> after == result
        }),
{
}

/// The diagnostics of an answer stand behind those of earlier ones, the state of a proof behind
/// earlier ones; neither changes anything else, and other messages change nothing.
pub proof fn law_diagnostics_and_proof_states_are_collected_in_order(
    result: FullBufferView,
    answer: messages::IdeResponseView,
    query_id: Seq<char>,
    proof_state: IdeProofStateView,
    level: Seq<char>,
    contents: Seq<char>,
    info: messages::ProtocolInfoView,
)
    ensures
        collected(result, FStarResponseView::Response(answer)) == (FullBufferView {
            diagnostics: result.diagnostics + match answer.response {
                Some(value) => match messages::diagnostics_in(value) {
                    Some(diagnostics) => diagnostics,
                    None => Seq::empty(),
                },
                None => Seq::empty(),
            },
            ..result
        }),
        collected(result, FStarResponseView::ProofState { query_id, proof_state }) == (
        FullBufferView { proof_states: result.proof_states.push(proof_state), ..result }),
        collected(result, FStarResponseView::StatusMessage { query_id, level, contents }) == result,
        collected(result, FStarResponseView::ProtocolInfo(info)) == result,
{
}

/// A message belongs to a query without a dot in its identifier where it carries that identifier,
/// or, where subqueries count, one that goes on with a dot behind it; the protocol information
/// belongs to none.
pub proof fn law_messages_carry_the_identifier_of_their_query(
    response: FStarResponseView,
    id: Seq<char>,
    query_id: Seq<char>,
)
    requires
        forall|i: int| 0 <= i < query_id.len() ==> #[trigger] query_id[i] != '.',
        match response {
            FStarResponseView::Response(answer) => answer.query_id == id,
            FStarResponseView::Progress { query_id: carried, .. } => carried == id,
            FStarResponseView::ProofState { query_id: carried, .. } => carried == id,
            FStarResponseView::StatusMessage { query_id: carried, .. } => carried == id,
            FStarResponseView::ProtocolInfo(_) => true,
        },
    ensures
        response is ProtocolInfo ==> !belongs(response, query_id, true) && !belongs(
            response,
            query_id,
            false,
        ),
        !(response is ProtocolInfo) ==> belongs(response, query_id, false) == (id == query_id),
        !(response is ProtocolInfo) ==> belongs(response, query_id, true) == (id == query_id || (
        id.len() > query_id.len() && id.take(query_id.len() as int) == query_id
            && id[query_id.len() as int] == '.')),
{
    text::lemma_position_of(id, '.');
    let end = text::position_of(id, '.') as int;
    if id == query_id || (id.len() > query_id.len() && id.take(query_id.len() as int) == query_id
        && id[query_id.len() as int] == '.') {
        assert forall|i: int| 0 <= i < query_id.len() implies id[i] != '.' by {
            assert(query_id[i] != '.');
            if id != query_id {
                assert(id.take(query_id.len() as int)[i] == id[i]);
            }
        }
        text::lemma_position_is(id, '.', query_id.len() as int);
        assert(id.take(query_id.len() as int) =~= query_id);
    } else if root_of(id) == query_id {
        assert(end == query_id.len());
        if end == id.len() {
            assert(id.take(end) =~= id);
        }
    }
}

/// The messages of a check that wait are taken one by one, the first first, until the check is
/// finished or none is left; what belongs to another query stays in its place.
pub proof fn law_waiting_messages_are_taken_in_order(
    result: FullBufferView,
    pending: Seq<FStarResponseView>,
    query_id: Seq<char>,
    place: int,
)
    requires
        0 <= place <= pending.len(),
        forall|i: int| 0 <= i < place ==> !belongs(#[trigger] pending[i], query_id, true),
        place < pending.len() ==> belongs(pending[place], query_id, true),
    ensures
        result.finished || place == pending.len() ==> drained(result, pending, query_id) == (
            result,
            pending,
        ),
        !result.finished && place < pending.len() ==> drained(result, pending, query_id)
            == drained(collected(result, pending[place]), pending.remove(place), query_id),
        result.finished <==> next_action(result) is Finished,
        !result.finished <==> next_action(result) is Receive,
{
    lemma_first_belonging(pending, query_id, true);
    let found = first_belonging(pending, query_id, true) as int;
    if found < place {
        assert(belongs(pending[found], query_id, true));
    }
}

/// The wait for an answer takes the first waiting message that belongs to the query, and leaves the
/// others in their order.
pub proof fn law_the_first_waiting_answer_is_taken(
    process: FStarProcessView,
    query_id: Seq<char>,
    include_subqueries: bool,
    place: int,
)
    requires
        0 <= place < process.pending.len(),
        forall|i: int|
            0 <= i < place ==> !belongs(
                #[trigger] process.pending[i],
                query_id,
                include_subqueries,
            ),
        belongs(process.pending[place], query_id, include_subqueries),
    ensures
        ({
            let (after, outcome) = received(process, query_id, include_subqueries, None);
            &&& outcome == ReceptionView::Answer(process.pending[place])
            &&& after.pending == process.pending.remove(place)
            &&& after.supports_full_buffer == process.supports_full_buffer
            &&& after.ide_version == process.ide_version
        }),
{
    lemma_first_belonging(process.pending, query_id, include_subqueries);
    let found = first_belonging(process.pending, query_id, include_subqueries) as int;
    if found < place {
        assert(belongs(process.pending[found], query_id, include_subqueries));
    }
}

/// A check that takes too long is cancelled from the start of its last fragment on, and from the
/// start of the buffer on where it has none.
pub proof fn law_late_checks_are_cancelled_at_their_last_fragment(fragments: Seq<FragmentView>)
    ensures
        fragments.len() == 0 ==> cancel_point(fragments) == (1u32, 0u32),
        fragments.len() > 0 ==> cancel_point(fragments) == fragments[fragments.len() - 1].range.beg,
{
}

/// Only an executable that is being written, which Unix reports under the number 26, is tried again,
/// and only three times.
pub proof fn law_only_busy_executables_are_tried_again(os_error: Option<i32>, unix: bool)
    ensures
        is_transient(os_error, unix) <==> unix && os_error == Some(26i32),
        MAX_RETRIES == 3,
{
}

/// A lookup has an answer where F* reports a success that describes something, and in no other
/// way.
pub proof fn law_only_successful_lookups_count(
    answer: messages::IdeResponseView,
    value: JsonView,
)
    ensures
        answer.status != Some("success"@) ==> answered_lookup(answer) is None,
        answer.response is None ==> answered_lookup(answer) is None,
        answer.status == Some("success"@) && answer.response == Some(value) ==> answered_lookup(
            answer,
        ) == messages::lookup_in(value),
{
}

/// A message about a process names the reason, the executable, or the code with which it has exited,
/// where there is one.
pub proof fn law_process_errors_name_their_cause(reason: Seq<char>, code: i32)
    ensures
        process_error_text(ProcessErrorView::SpawnError(reason)) == "Failed to spawn F* process: "@
            + reason,
        process_error_text(ProcessErrorView::ExecutableNotFound(reason))
            == "F* executable not found: "@ + reason,
        process_error_text(ProcessErrorView::ProcessExited(Some(code)))
            == "F* process exited unexpectedly with code "@ + ("Some("@ + text::integer_of(
            code as int,
        ) + ")"@),
        process_error_text(ProcessErrorView::ProcessExited(None))
            == "F* process exited unexpectedly with code "@ + "None"@,
        process_error_text(ProcessErrorView::SendError(reason)) == "Failed to send message to F*: "@
            + reason,
        process_error_text(ProcessErrorView::NoFullBufferSupport)
            == "F* does not support full-buffer mode"@,
        process_error_text(ProcessErrorView::Timeout) == "Query timed out"@,
{
}

/// A process that has not said what it can do is taken to support whole buffers with the current
/// version of the protocol, and no message of it waits.
pub proof fn law_silent_processes_support_everything()
    ensures
        fresh_process().supports_full_buffer,
        fresh_process().ide_version == 3,
        fresh_process().pending.len() == 0,
        nothing_checked().fragments.len() == 0,
        nothing_checked().diagnostics.len() == 0,
        nothing_checked().proof_states.len() == 0,
        !nothing_checked().finished,
        !nothing_checked().timed_out,
{
}

/// Two queries of a process, one after the other, have different identifiers.
pub proof fn law_queries_in_a_row_are_told_apart(
    control: &mut FStarProcessControl,
    later: &mut FStarProcessControl,
    first: String,
    second: String,
)
    requires
        call_ensures(FStarProcessControl::next_query_id, (control,), first),
        call_ensures(FStarProcessControl::next_query_id, (later,), second),
        *old(later) == *final(control),
    ensures
        first@ != second@,
{
    text::law_numbers_are_read_back(old(control).next as nat, u64::MAX as nat, first@);
    text::law_numbers_are_read_back(old(later).next as nat, u64::MAX as nat, second@);
}

/// A process that has told its features supports whole buffers exactly when it has named them; one
/// that answers with something else is taken to. One that closes its output has exited, and one
/// that says nothing in time has timed out.
pub proof fn law_processes_tell_what_they_support(
    event: StartEvent,
    result: Result<FStarProcess, ProcessError>,
)
    requires
        call_ensures(FStarProcess::wait_for_protocol_info, (event,), result),
    ensures
        match (event, result) {
            (StartEvent::Message(response), Ok(process)) => match response@ {
                FStarResponseView::ProtocolInfo(info) => process@.supports_full_buffer
                    == info.features.contains("full-buffer"@) && process@.ide_version
                    == info.version && process@.pending.len() == 0,
                _ => process@.supports_full_buffer && process@.pending.len() == 0,
            },
            (StartEvent::Closed, Err(error)) => error@ is ProcessExited,
            (StartEvent::DeadlinePassed, Err(error)) => error@ is Timeout,
            _ => false,
        },
{
}

/// A buffer is sent exactly to a process that supports whole buffers.
pub proof fn law_buffers_need_support(
    process: &FStarProcess,
    code: &str,
    kind: &str,
    to_position: Option<(u32, u32)>,
    result: Result<Json, ProcessError>,
)
    requires
        call_ensures(FStarProcess::full_buffer_query, (process, code, kind, to_position), result),
    ensures
        result is Ok <==> process@.supports_full_buffer,
        result matches Ok(query) ==> query@ == protocol::full_buffer_value(
            code@,
            kind@,
            to_position,
        ),
        result matches Err(error) ==> error@ is NoFullBufferSupport,
{
}

/// A file is added once the process has answered, and a lookup has an outcome then; without an
/// answer both have timed out.
pub proof fn law_only_answers_are_outcomes(
    reply: Option<FStarResponse>,
    looked_up: Option<FStarResponse>,
    added: Result<(), ProcessError>,
    found: Result<Option<IdeLookupResponse>, ProcessError>,
)
    requires
        call_ensures(FStarProcess::vfs_add_outcome, (reply,), added),
        call_ensures(FStarProcess::lookup_outcome, (looked_up,), found),
    ensures
        added is Ok <==> reply is Some && reply->Some_0@ is Response,
        found is Ok <==> looked_up is Some && looked_up->Some_0@ is Response,
        added matches Err(error) ==> error@ is Timeout,
        found matches Err(error) ==> error@ is Timeout,
{
}

/// A launch is tried again up to three times, and only where the executable is being written; after
/// that, and for any other reason, it has failed.
pub proof fn law_launches_are_tried_again_three_times(
    launch: &mut Launch,
    failure: LaunchFailure,
    unix: bool,
    decision: LaunchDecision,
)
    requires
        call_ensures(Launch::after_failure, (launch, failure, unix), decision),
    ensures
        decision is Retry ==> old(launch).attempts < 3 && final(launch).attempts
            == old(launch).attempts + 1 && unix && failure is Other,
        match failure {
            LaunchFailure::NotFound => decision matches LaunchDecision::Fail(error) && error@
                == ProcessErrorView::ExecutableNotFound(old(launch).program@),
            LaunchFailure::Other { os_error, reason } => {
                &&& decision is Retry <==> old(launch).attempts < 3 && unix && os_error == Some(26i32)
                &&& decision matches LaunchDecision::Fail(error) ==> error@
                    == ProcessErrorView::SpawnError(reason@)
            },
        },
        final(launch).program@ == old(launch).program@,
        final(launch).arguments@ == old(launch).arguments@,
{
}

/// A message of another query leaves a check as it is and waits for that query. A process that closes
/// its output has exited. A check that is late is marked so, keeps what it has found, and is
/// cancelled from its last fragment on.
pub proof fn law_events_decide_how_a_check_goes_on(
    process: &mut FStarProcess,
    query: &mut BufferQuery,
    event: BufferEvent,
    action: BufferAction,
)
    requires
        call_ensures(FStarProcess::advance, (process, query, event), action),
    ensures
        final(query).query_id@ == old(query).query_id@,
        match event {
            BufferEvent::Message(response) => if belongs(response@, old(query).query_id@, true) {
                &&& final(query).result@ == collected(old(query).result@, response@)
                &&& final(process)@.pending == old(process)@.pending
                &&& action@ is Finished <==> final(query).result@.finished
                &&& action@ is Receive <==> !final(query).result@.finished
            } else {
                &&& final(query).result@ == old(query).result@
                &&& final(process)@.pending == kept(old(process)@.pending, response@)
                &&& action@ is Receive
            },
            BufferEvent::Closed => {
                &&& action@ == BufferActionView::Fail(ProcessErrorView::ProcessExited(None))
                &&& final(query).result@ == old(query).result@
            },
            BufferEvent::DeadlinePassed => {
                let (before, after) = (old(query).result@, final(query).result@);
                &&& after.timed_out
                &&& after.fragments == before.fragments
                &&& after.diagnostics == before.diagnostics
                &&& after.proof_states == before.proof_states
                &&& after.finished == before.finished
                &&& action@ == (BufferActionView::Cancel {
                    position: if before.fragments.len() > 0 {
                        before.fragments[before.fragments.len() - 1].range.beg
                    } else {
                        (1u32, 0u32)
                    },
                })
            },
        },
{
}

/// A report of a stage sets the status of the fragment that it is about to what the stage says, in
/// the result that collects it.
pub proof fn law_collected_reports_set_the_status(
    result: &mut FullBufferResult,
    response: FStarResponse,
    query_id: Seq<char>,
    stage: Seq<char>,
    range: FStarRangeView,
    status: FragmentStatus,
)
    requires
        call_ensures(FullBufferResult::collect, (result, response), ()),
        response@ == (FStarResponseView::Progress { query_id, stage, ranges: Some(range) }),
        ({
            ||| stage == "full-buffer-fragment-started"@ && status is InProgress
            ||| stage == "full-buffer-fragment-ok"@ && status is Verified
            ||| stage == "full-buffer-fragment-lax-ok"@ && status is LaxOk
            ||| stage == "full-buffer-fragment-failed"@ && status is Failed
        }),
        forall|i: int|
            0 <= i < old(result)@.fragments.len() ==> (
            #[trigger] old(result)@.fragments[i]).range != range,
    ensures
        final(result)@.fragments == old(result)@.fragments.push(FragmentView { range, status }),
{
    let before = old(result)@;
    law_reports_set_the_status_of_their_range(
        before,
        query_id,
        stage,
        range,
        status,
        before.fragments.len() as int,
    );
    assert(final(result)@.fragments =~= before.fragments.push(FragmentView { range, status }));
}

} // verus!
