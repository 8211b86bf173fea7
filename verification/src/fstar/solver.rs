//! The restart of a solver: which processes are stopped, and what is sent after that.
use crate::fstar::process::{ProcessError, ProcessErrorView};
use crate::json::{Json, JsonView};
use crate::text;
use vstd::prelude::*;

verus! {

/// A line of the table of processes.
#[derive(Debug)]
pub struct ProcessRow {
    pub pid: u32,
    pub parent: u32,
    pub command: String,
}

/// The model of a line of the table.
pub struct ProcessRowView {
    pub pid: u32,
    pub parent: u32,
    pub command: Seq<char>,
}

impl View for ProcessRow {
    type V = ProcessRowView;

    open spec fn view(&self) -> ProcessRowView {
        ProcessRowView { pid: self.pid, parent: self.parent, command: self.command@ }
    }
}

/// The models of the lines of a table.
pub open spec fn rows_view(rows: Seq<ProcessRow>) -> Seq<ProcessRowView> {
    Seq::new(rows.len(), |i: int| rows[i]@)
}

/// What a line of the table says: two numbers and a command, and whatever follows them.
pub open spec fn row_on(line: Seq<char>) -> Option<ProcessRowView> {
    let words = text::words_of(line);
    if words.len() < 3 {
        None
    } else {
        match (
            text::unsigned_of(words[0], u32::MAX as nat),
            text::unsigned_of(words[1], u32::MAX as nat),
        ) {
            (Some(pid), Some(parent)) => Some(
                ProcessRowView { pid: pid as u32, parent: parent as u32, command: words[2] },
            ),
            _ => None,
        }
    }
}

/// What the lines of the table say; other lines say nothing.
pub open spec fn rows_on(lines: Seq<Seq<char>>) -> Seq<ProcessRowView>
    decreases lines.len(),
{
    if lines.len() == 0 {
        Seq::empty()
    } else {
        let rows = rows_on(lines.drop_last());
        match row_on(lines.last()) {
            Some(row) => rows.push(row),
            None => rows,
        }
    }
}

/// True when some process of the table has the one number and the other as its parent's.
pub open spec fn is_child(rows: Seq<ProcessRowView>, parent: u32, pid: u32) -> bool {
    exists|i: int|
        0 <= i < rows.len() && (#[trigger] rows[i]).parent == parent && rows[i].pid == pid
}

/// True when `chain` leads from parent to child.
pub open spec fn is_chain(rows: Seq<ProcessRowView>, chain: Seq<u32>) -> bool {
    forall|i: int| 0 < i < chain.len() ==> is_child(rows, chain[i - 1], #[trigger] chain[i])
}

/// True when `pid` is `root` or descends from it.
pub open spec fn descends(rows: Seq<ProcessRowView>, root: u32, pid: u32) -> bool {
    exists|chain: Seq<u32>|
        chain.len() > 0 && chain[0] == root && chain.last() == pid && #[trigger] is_chain(
            rows,
            chain,
        )
}

/// True for a process that is stopped when the solver below `root` is restarted.
pub open spec fn is_stopped(rows: Seq<ProcessRowView>, root: u32, row: ProcessRowView) -> bool {
    descends(rows, root, row.pid) && "z3"@.is_prefix_of(row.command)
}

/// The numbers of the first `count` processes that are stopped, in the order of the table.
pub open spec fn stopped(rows: Seq<ProcessRowView>, root: u32, count: int) -> Seq<u32>
    decreases count,
{
    if count <= 0 {
        Seq::empty()
    } else {
        let before = stopped(rows, root, count - 1);
        if is_stopped(rows, root, rows[count - 1]) {
            before.push(rows[count - 1].pid)
        } else {
            before
        }
    }
}

/// A solver process is stopped exactly when it descends from the F* process: no other client's
/// solver is.
pub proof fn law_only_own_solvers_are_stopped(rows: Seq<ProcessRowView>, root: u32, pid: u32)
    ensures
        stopped(rows, root, rows.len() as int).contains(pid) <==> exists|i: int|
            0 <= i < rows.len() && (#[trigger] rows[i]).pid == pid && descends(
                rows,
                root,
                rows[i].pid,
            ) && rows[i].command.len() >= 2 && rows[i].command[0] == 'z' && rows[i].command[1]
                == '3',
{
    lemma_stopped(rows, root, rows.len() as int, pid);
    reveal_strlit("z3");
    assert("z3"@.len() == 2 && "z3"@[0] == 'z' && "z3"@[1] == '3');
    assert forall|i: int| 0 <= i < rows.len() implies "z3"@.is_prefix_of(
        (#[trigger] rows[i]).command,
    ) == (rows[i].command.len() >= 2 && rows[i].command[0] == 'z' && rows[i].command[1] == '3') by {
        let command = rows[i].command;
        if "z3"@.is_prefix_of(command) {
            assert("z3"@[0] == command.subrange(0, 2)[0]);
            assert("z3"@[1] == command.subrange(0, 2)[1]);
        } else if command.len() >= 2 && command[0] == 'z' && command[1] == '3' {
            assert("z3"@ =~= command.subrange(0, 2));
        }
    }
    assert forall|i: int| 0 <= i < rows.len() implies is_stopped(rows, root, #[trigger] rows[i]) == (
    descends(rows, root, rows[i].pid) && rows[i].command.len() >= 2 && rows[i].command[0] == 'z'
        && rows[i].command[1] == '3') by {}
}

proof fn lemma_stopped(rows: Seq<ProcessRowView>, root: u32, count: int, pid: u32)
    requires
        0 <= count <= rows.len(),
    ensures
        stopped(rows, root, count).contains(pid) <==> exists|i: int|
            0 <= i < count && (#[trigger] rows[i]).pid == pid && is_stopped(rows, root, rows[i]),
    decreases count,
{
    if count > 0 {
        lemma_stopped(rows, root, count - 1, pid);
        let before = stopped(rows, root, count - 1);
        let after = stopped(rows, root, count);
        let last = rows[count - 1];
        if after.contains(pid) {
            let at = after.index_of(pid);
            if at < before.len() {
                assert(before[at] == pid);
                assert(before.contains(pid));
            }
        }
        if before.contains(pid) {
            assert(after[before.index_of(pid)] == pid);
        }
        if last.pid == pid && is_stopped(rows, root, last) {
            assert(after.last() == pid);
        }
    }
}

/// Reads a line of the table.
fn read_row(line: &str) -> (row: Option<ProcessRow>)
    ensures
        match row {
            Some(found) => row_on(line@) == Some(found@),
            None => row_on(line@) is None,
        },
{
    let words = text::split_words(line);
    assert(text::texts(words@).len() == words@.len());
    if words.len() < 3 {
        return None;
    }
    assert(forall|i: int| 0 <= i < words@.len() ==> text::words_of(line@)[i] == #[trigger] words@[i]@);
    let pid = text::parse_unsigned(words[0].as_str(), u32::MAX as u64);
    let parent = text::parse_unsigned(words[1].as_str(), u32::MAX as u64);
    match (pid, parent) {
        (Some(number), Some(above)) => Some(
            ProcessRow { pid: number as u32, parent: above as u32, command: words[2].clone() },
        ),
        _ => None,
    }
}

/// Reads the table of processes.
pub fn read_table(table: &str) -> (rows: Vec<ProcessRow>)
    ensures
        rows_view(rows@) == rows_on(text::lines_of(table@)),
{
    let lines = text::split_lines(table);
    let ghost all = text::lines_of(table@);
    assert(text::texts(lines@).len() == lines@.len());
    let mut rows: Vec<ProcessRow> = Vec::new();
    let mut index: usize = 0;
    assert(all.take(0) =~= Seq::empty());
    assert(rows_view(rows@) =~= Seq::empty());
    while index < lines.len()
        invariant
            index <= lines@.len(),
            all == text::texts(lines@),
            rows_view(rows@) == rows_on(all.take(index as int)),
        decreases lines@.len() - index,
    {
        let ghost before = rows_view(rows@);
        assert(all.take(index + 1).drop_last() =~= all.take(index as int));
        assert(all.take(index + 1).last() == lines@[index as int]@);
        match read_row(lines[index].as_str()) {
            Some(row) => {
                rows.push(row);
                assert(rows_view(rows@) =~= before.push(row@));
            },
            None => {},
        }
        index += 1;
    }
    assert(all.take(index as int) =~= all);
    rows
}

/// True when the number is in the list.
fn holds(list: &Vec<u32>, number: u32) -> (found: bool)
    ensures
        found == list@.contains(number),
{
    let mut index: usize = 0;
    while index < list.len()
        invariant
            index <= list@.len(),
            forall|i: int| 0 <= i < index ==> list@[i] != number,
        decreases list@.len() - index,
    {
        if list[index] == number {
            assert(list@[index as int] == number);
            return true;
        }
        index += 1;
    }
    false
}

/// A chain goes on to a child of its last process.
proof fn lemma_child_descends(rows: Seq<ProcessRowView>, root: u32, parent: u32, pid: u32)
    requires
        descends(rows, root, parent),
        is_child(rows, parent, pid),
    ensures
        descends(rows, root, pid),
{
    let chain = choose|chain: Seq<u32>|
        chain.len() > 0 && chain[0] == root && chain.last() == parent && #[trigger] is_chain(
            rows,
            chain,
        );
    let longer = chain.push(pid);
    assert forall|i: int| 0 < i < longer.len() implies is_child(
        rows,
        longer[i - 1],
        #[trigger] longer[i],
    ) by {
        if i < chain.len() {
            assert(chain[i] == longer[i]);
        }
    }
    assert(is_chain(rows, longer));
}

/// A list that holds `root`, and with each process its children, holds all that descend from it.
proof fn lemma_closed_list(rows: Seq<ProcessRowView>, root: u32, list: Seq<u32>, chain: Seq<u32>)
    requires
        list.contains(root),
        forall|parent: u32, pid: u32|
            list.contains(parent) && #[trigger] is_child(rows, parent, pid) ==> list.contains(pid),
        chain.len() > 0,
        chain[0] == root,
        is_chain(rows, chain),
    ensures
        list.contains(chain.last()),
    decreases chain.len(),
{
    if chain.len() > 1 {
        let rest = chain.drop_last();
        assert forall|i: int| 0 < i < rest.len() implies is_child(
            rows,
            rest[i - 1],
            #[trigger] rest[i],
        ) by {
            assert(chain[i] == rest[i]);
        }
        lemma_closed_list(rows, root, list, rest);
        assert(is_child(rows, chain[chain.len() - 2], chain[chain.len() - 1]));
    }
}

/// A list without repetitions whose members are `root` or processes of the table is at most one
/// longer than the table.
proof fn lemma_list_is_short(rows: Seq<ProcessRowView>, root: u32, list: Seq<u32>)
    requires
        list.no_duplicates(),
        forall|i: int| 0 <= i < list.len() ==> descends(rows, root, #[trigger] list[i]),
    ensures
        list.len() <= rows.len() + 1,
{
    let pids = Seq::new(rows.len(), |i: int| rows[i].pid);
    let known = pids.push(root);
    assert forall|number: u32| list.to_set().contains(number) implies known.to_set().contains(
        number,
    ) by {
        let at = list.index_of(number);
        assert(descends(rows, root, list[at]));
        let chain = choose|chain: Seq<u32>|
            chain.len() > 0 && chain[0] == root && chain.last() == number && #[trigger] is_chain(
                rows,
                chain,
            );
        if chain.len() == 1 {
            assert(known[pids.len() as int] == number);
        } else {
            let last = chain.len() - 1;
            assert(is_child(rows, chain[last - 1], chain[last]));
            let i = choose|i: int|
                0 <= i < rows.len() && (#[trigger] rows[i]).parent == chain[last - 1]
                    && rows[i].pid == number;
            assert(known[i] == number);
        }
    }
    list.unique_seq_to_set();
    known.lemma_cardinality_of_set();
    assert(list.to_set().subset_of(known.to_set()));
    vstd::set_lib::lemma_len_subset(list.to_set(), known.to_set());
}

/// The numbers of `root` and of the processes that descend from it.
fn family(rows: &Vec<ProcessRow>, root: u32) -> (list: Vec<u32>)
    ensures
        forall|pid: u32| list@.contains(pid) <==> descends(rows_view(rows@), root, pid),
{
    let ghost table = rows_view(rows@);
    let mut list: Vec<u32> = Vec::new();
    list.push(root);
    proof {
        assert(is_chain(table, seq![root]));
        assert(seq![root].last() == root);
        assert(list@[0] == root);
    }
    let mut index: usize = 0;
    while index < list.len()
        invariant
            table == rows_view(rows@),
            index <= list@.len(),
            list@.len() > 0,
            list@[0] == root,
            list@.no_duplicates(),
            forall|i: int| 0 <= i < list@.len() ==> descends(table, root, #[trigger] list@[i]),
            forall|i: int, pid: u32|
                #![trigger list@[i], is_child(table, list@[i], pid)]
                0 <= i < index && is_child(table, list@[i], pid) ==> list@.contains(pid),
        decreases table.len() + 1 - index,
    {
        let parent = list[index];
        let ghost start = list@;
        let mut place: usize = 0;
        while place < rows.len()
            invariant
                table == rows_view(rows@),
                place <= rows@.len(),
                index < start.len() <= list@.len(),
                start == list@.take(start.len() as int),
                parent == start[index as int],
                list@[0] == root,
                list@.no_duplicates(),
                descends(table, root, parent),
                forall|i: int| 0 <= i < list@.len() ==> descends(table, root, #[trigger] list@[i]),
                forall|i: int|
                    0 <= i < place && (#[trigger] table[i]).parent == parent ==> list@.contains(
                        table[i].pid,
                    ),
            decreases rows@.len() - place,
        {
            let row = &rows[place];
            assert(table[place as int] == row@);
            let ghost before = list@;
            if row.parent == parent && !holds(&list, row.pid) {
                proof {
                    assert(is_child(table, parent, row.pid));
                    lemma_child_descends(table, root, parent, row.pid);
                }
                list.push(row.pid);
                assert(list@.take(start.len() as int) =~= start);
                assert(list@.last() == row.pid);
                assert forall|i: int|
                    0 <= i < place && (#[trigger] table[i]).parent
                        == parent implies list@.contains(table[i].pid) by {
                    assert(list@[before.index_of(table[i].pid)] == table[i].pid);
                }
            }
            place += 1;
        }
        proof {
            assert forall|i: int, pid: u32|
                #![trigger list@[i], is_child(table, list@[i], pid)]
                0 <= i < index + 1 && is_child(table, list@[i], pid) implies list@.contains(
                pid,
            ) by {
                assert(start[i] == list@[i]);
                if i < index {
                    assert(is_child(table, start[i], pid));
                    assert(start.contains(pid));
                    let at = start.index_of(pid);
                    assert(list@[at] == start[at]);
                }
            }
            lemma_list_is_short(table, root, list@);
        }
        index += 1;
    }
    proof {
        assert forall|pid: u32| list@.contains(pid) <==> descends(table, root, pid) by {
            if list@.contains(pid) {
                assert(descends(table, root, list@[list@.index_of(pid)]));
            }
            if descends(table, root, pid) {
                let chain = choose|chain: Seq<u32>|
                    chain.len() > 0 && chain[0] == root && chain.last() == pid
                        && #[trigger] is_chain(table, chain);
                assert forall|parent: u32, child: u32|
                    list@.contains(parent) && #[trigger] is_child(
                        table,
                        parent,
                        child,
                    ) implies list@.contains(child) by {
                    let at = list@.index_of(parent);
                    assert(is_child(table, list@[at], child));
                }
                lemma_closed_list(table, root, list@, chain);
            }
        }
    }
    list
}

/// The numbers of the solver processes below `root`, which a restart of the solver stops, out of
/// a table of the numbers, the parents' numbers and the commands of all processes.
pub fn z3_descendants(root: u32, table: &str) -> (pids: Vec<u32>)
    ensures
        pids@ == stopped_in(table@, root),
{
    let rows = read_table(table);
    let ghost all = rows_view(rows@);
    let mut pids: Vec<u32> = Vec::new();
    let list = family(&rows, root);
    let mut index: usize = 0;
    while index < rows.len()
        invariant
            index <= rows@.len(),
            all == rows_view(rows@),
            forall|pid: u32| list@.contains(pid) <==> descends(all, root, pid),
            pids@ == stopped(all, root, index as int),
        decreases rows@.len() - index,
    {
        let row = &rows[index];
        assert(all[index as int] == row@);
        if holds(&list, row.pid) && text::starts_with(row.command.as_str(), "z3") {
            pids.push(row.pid);
        }
        index += 1;
    }
    pids
}

/// Where the restart of a solver stands.
#[derive(Debug, Clone, Copy, PartialEq, Eq, Structural)]
pub enum RestartPhase {
    /// The table of processes is being read.
    Listing,
    /// The solver processes are being stopped.
    Stopping,
    /// They are given time to end.
    Pausing,
    /// The query is being sent.
    Sending,
    Ended,
}

/// What a step of a restart has brought.
#[derive(Debug)]
pub enum RestartEvent {
    /// The table of processes, where it could be read.
    Listed(Option<String>),
    /// All processes have got their signal.
    Stopped,
    /// The time is over.
    Paused,
    /// The query has been sent, or could not be sent.
    Sent(Result<(), ProcessError>),
}

/// The model of what a step of a restart has brought.
pub enum RestartEventView {
    Listed(Option<Seq<char>>),
    Stopped,
    Paused,
    Sent(Result<(), ProcessErrorView>),
}

impl View for RestartEvent {
    type V = RestartEventView;

    open spec fn view(&self) -> RestartEventView {
        match *self {
            RestartEvent::Listed(table) => RestartEventView::Listed(text::opt_text(table)),
            RestartEvent::Stopped => RestartEventView::Stopped,
            RestartEvent::Paused => RestartEventView::Paused,
            RestartEvent::Sent(Ok(_)) => RestartEventView::Sent(Ok(())),
            RestartEvent::Sent(Err(error)) => RestartEventView::Sent(Err(error@)),
        }
    }
}

/// The next step of a restart.
#[derive(Debug)]
pub enum RestartAction {
    /// Read the table of processes.
    List,
    /// Ask the processes to end.
    Stop { pids: Vec<u32> },
    /// Wait a second.
    Pause,
    /// Send the query.
    Send { query: Json },
    /// The query has been sent.
    Finish,
    /// The query could not be sent.
    Fail(ProcessError),
    /// Nothing: this is not what the restart waits for.
    Nothing,
}

/// The model of the next step of a restart.
pub enum RestartActionView {
    List,
    Stop { pids: Seq<u32> },
    Pause,
    Send { query: JsonView },
    Finish,
    Fail(ProcessErrorView),
    Nothing,
}

impl View for RestartAction {
    type V = RestartActionView;

    open spec fn view(&self) -> RestartActionView {
        match *self {
            RestartAction::List => RestartActionView::List,
            RestartAction::Stop { pids } => RestartActionView::Stop { pids: pids@ },
            RestartAction::Pause => RestartActionView::Pause,
            RestartAction::Send { query } => RestartActionView::Send { query: query@ },
            RestartAction::Finish => RestartActionView::Finish,
            RestartAction::Fail(error) => RestartActionView::Fail(error@),
            RestartAction::Nothing => RestartActionView::Nothing,
        }
    }
}

/// The restart of the solver of an F* process.
#[derive(Debug)]
pub struct RestartCourse {
    pub phase: RestartPhase,
    /// The number of the F* process.
    pub root: u32,
    pub query: Json,
}

/// The model of a restart.
pub struct RestartCourseView {
    pub phase: RestartPhase,
    pub root: u32,
    pub query: JsonView,
}

impl View for RestartCourse {
    type V = RestartCourseView;

    open spec fn view(&self) -> RestartCourseView {
        RestartCourseView { phase: self.phase, root: self.root, query: self.query@ }
    }
}

/// The numbers of the processes that are stopped out of a table.
pub open spec fn stopped_in(table: Seq<char>, root: u32) -> Seq<u32> {
    let rows = rows_on(text::lines_of(table));
    stopped(rows, root, rows.len() as int)
}

/// A restart that has not begun. Where the number of the process is not known, or the system has no
/// table of processes, none is stopped.
pub open spec fn restart_of(root: Option<u32>, query: JsonView) -> RestartCourseView {
    match root {
        Some(pid) => RestartCourseView { phase: RestartPhase::Listing, root: pid, query },
        None => RestartCourseView { phase: RestartPhase::Pausing, root: 0, query },
    }
}

/// The first step of a restart.
pub open spec fn first_restart_action(root: Option<u32>) -> RestartActionView {
    match root {
        Some(_) => RestartActionView::List,
        None => RestartActionView::Pause,
    }
}

/// A restart after an event, and the next step. An event that it does not wait for changes nothing.
pub open spec fn restart_advanced(course: RestartCourseView, event: RestartEventView) -> (
    RestartCourseView,
    RestartActionView,
) {
    match (course.phase, event) {
        (RestartPhase::Listing, RestartEventView::Listed(Some(table))) => (
            RestartCourseView { phase: RestartPhase::Stopping, ..course },
            RestartActionView::Stop { pids: stopped_in(table, course.root) },
        ),
        (RestartPhase::Listing, RestartEventView::Listed(None)) => (
            RestartCourseView { phase: RestartPhase::Pausing, ..course },
            RestartActionView::Pause,
        ),
        (RestartPhase::Stopping, RestartEventView::Stopped) => (
            RestartCourseView { phase: RestartPhase::Pausing, ..course },
            RestartActionView::Pause,
        ),
        (RestartPhase::Pausing, RestartEventView::Paused) => (
            RestartCourseView { phase: RestartPhase::Sending, ..course },
            RestartActionView::Send { query: course.query },
        ),
        (RestartPhase::Sending, RestartEventView::Sent(Ok(_))) => (
            RestartCourseView { phase: RestartPhase::Ended, ..course },
            RestartActionView::Finish,
        ),
        (RestartPhase::Sending, RestartEventView::Sent(Err(error))) => (
            RestartCourseView { phase: RestartPhase::Ended, ..course },
            RestartActionView::Fail(error),
        ),
        _ => (course, RestartActionView::Nothing),
    }
}

impl RestartCourse {
    /// A restart that has not begun, and its first step.
    pub fn new(root: Option<u32>, query: Json) -> (begun: (RestartCourse, RestartAction))
        ensures
            begun.0@ == restart_of(root, query@),
            begun.1@ == first_restart_action(root),
    {
        match root {
            Some(pid) => (
                RestartCourse { phase: RestartPhase::Listing, root: pid, query },
                RestartAction::List,
            ),
            None => (
                RestartCourse { phase: RestartPhase::Pausing, root: 0, query },
                RestartAction::Pause,
            ),
        }
    }

    /// Goes on after an event.
    pub fn advance(&mut self, event: RestartEvent) -> (action: RestartAction)
        ensures
            (final(self)@, action@) == restart_advanced(old(self)@, event@),
    {
        match (self.phase, event) {
            (RestartPhase::Listing, RestartEvent::Listed(Some(table))) => {
                self.phase = RestartPhase::Stopping;
                RestartAction::Stop { pids: z3_descendants(self.root, table.as_str()) }
            },
            (RestartPhase::Listing, RestartEvent::Listed(None)) => {
                self.phase = RestartPhase::Pausing;
                RestartAction::Pause
            },
            (RestartPhase::Stopping, RestartEvent::Stopped) => {
                self.phase = RestartPhase::Pausing;
                RestartAction::Pause
            },
            (RestartPhase::Pausing, RestartEvent::Paused) => {
                self.phase = RestartPhase::Sending;
                RestartAction::Send { query: self.query.copy() }
            },
            (RestartPhase::Sending, RestartEvent::Sent(Ok(_))) => {
                self.phase = RestartPhase::Ended;
                RestartAction::Finish
            },
            (RestartPhase::Sending, RestartEvent::Sent(Err(error))) => {
                self.phase = RestartPhase::Ended;
                RestartAction::Fail(error)
            },
            _ => RestartAction::Nothing,
        }
    }
}

/// A restart after all events.
pub open spec fn restarted(course: RestartCourseView, events: Seq<RestartEventView>) -> RestartCourseView
    decreases events.len(),
{
    if events.len() == 0 {
        course
    } else {
        restart_advanced(restarted(course, events.drop_last()), events.last()).0
    }
}

/// The step that follows an event of a restart.
pub open spec fn restart_action(
    course: RestartCourseView,
    events: Seq<RestartEventView>,
    place: int,
) -> RestartActionView {
    restart_advanced(restarted(course, events.take(place)), events[place]).1
}

/// How far a restart has come.
spec fn progress(phase: RestartPhase) -> int {
    match phase {
        RestartPhase::Listing => 0,
        RestartPhase::Stopping => 1,
        RestartPhase::Pausing => 2,
        RestartPhase::Sending => 3,
        RestartPhase::Ended => 4,
    }
}

/// A restart keeps its process and its query, and never goes back.
proof fn lemma_restarted(
    root: u32,
    query: JsonView,
    events: Seq<RestartEventView>,
    count: int,
    later: int,
)
    requires
        0 <= count <= later <= events.len(),
    ensures
        ({
            let start = restart_of(Some(root), query);
            let before = restarted(start, events.take(count));
            let after = restarted(start, events.take(later));
            &&& after.root == root && after.query == query
            &&& progress(before.phase) <= progress(after.phase)
        }),
    decreases later,
{
    let start = restart_of(Some(root), query);
    if later > 0 {
        assert(events.take(later).drop_last() =~= events.take(later - 1));
        assert(events.take(later).last() == events[later - 1]);
        if count < later {
            lemma_restarted(root, query, events, count, later - 1);
        } else {
            lemma_restarted(root, query, events, later - 1, later - 1);
        }
    } else {
        assert(events.take(0) =~= Seq::empty());
    }
}

/// Once a restart has passed the reading of the table, it has read one and stopped its solvers, or
/// there was none to read.
proof fn lemma_listed(root: u32, query: JsonView, events: Seq<RestartEventView>, count: int)
    requires
        0 <= count <= events.len(),
        progress(restarted(restart_of(Some(root), query), events.take(count)).phase) > 0,
    ensures
        exists|i: int|
            0 <= i < count && is_listing(restart_of(Some(root), query), events, i),
    decreases count,
{
    let start = restart_of(Some(root), query);
    if count == 0 {
        assert(events.take(0) =~= Seq::empty());
    } else {
        assert(events.take(count).drop_last() =~= events.take(count - 1));
        assert(events.take(count).last() == events[count - 1]);
        if progress(restarted(start, events.take(count - 1)).phase) > 0 {
            lemma_listed(root, query, events, count - 1);
            let i = choose|i: int| 0 <= i < count - 1 && is_listing(start, events, i);
            assert(is_listing(start, events, i));
        } else {
            assert(is_listing(start, events, count - 1));
        }
    }
}

/// True when an event gives a restart the table of processes that it waits for, or says that there
/// is none.
pub open spec fn is_listing(
    course: RestartCourseView,
    events: Seq<RestartEventView>,
    place: int,
) -> bool {
    restarted(course, events.take(place)).phase is Listing && events[place] is Listed
}

/// The query of a restart goes out only after the solver processes below the F* process have been
/// stopped: those of the table of processes, and no others, unless there is no table. No process
/// is stopped after the query.
pub proof fn law_solvers_are_stopped_before_the_query(
    root: u32,
    query: JsonView,
    events: Seq<RestartEventView>,
    place: int,
)
    requires
        0 <= place < events.len(),
        restart_action(restart_of(Some(root), query), events, place) is Send,
    ensures
        ({
            let course = restart_of(Some(root), query);
            &&& restart_action(course, events, place)->query == query
            &&& exists|i: int|
                0 <= i < place && #[trigger] is_listing(course, events, i) && match events[i]->Listed_0 {
                    Some(table) => restart_action(course, events, i) == (RestartActionView::Stop {
                        pids: stopped_in(table, root),
                    }),
                    None => restart_action(course, events, i) is Pause,
                }
            &&& forall|j: int|
                place <= j < events.len() ==> !(#[trigger] restart_action(course, events, j) is Stop)
        }),
{
    let course = restart_of(Some(root), query);
    lemma_restarted(root, query, events, place, place);
    assert(restarted(course, events.take(place)).phase is Pausing);
    lemma_listed(root, query, events, place);
    let i = choose|i: int| 0 <= i < place && is_listing(course, events, i);
    lemma_restarted(root, query, events, i, i);
    assert(is_listing(course, events, i));
    assert forall|j: int| place <= j < events.len() implies !(#[trigger] restart_action(
        course,
        events,
        j,
    ) is Stop) by {
        lemma_restarted(root, query, events, place, j);
    }
}

/// A process descends from another one exactly as far as the table leads: the process itself does,
/// the children of those that do do, and no others: whatever holds of the process and with each
/// process of its children holds of all that descend from it.
pub proof fn law_descendants_are_found_through_their_parents(
    rows: Seq<ProcessRowView>,
    root: u32,
    at: int,
    closed: Seq<u32>,
    pid: u32,
)
    ensures
        descends(rows, root, root),
        0 <= at < rows.len() && descends(rows, root, rows[at].parent) ==> descends(
            rows,
            root,
            rows[at].pid,
        ),
        closed.contains(root) && (forall|i: int|
            0 <= i < rows.len() && closed.contains((#[trigger] rows[i]).parent) ==> closed.contains(
                rows[i].pid,
            )) && descends(rows, root, pid) ==> closed.contains(pid),
{
    let alone = seq![root];
    assert(alone.last() == root);
    assert(is_chain(rows, alone));
    if 0 <= at < rows.len() && descends(rows, root, rows[at].parent) {
        assert(is_child(rows, rows[at].parent, rows[at].pid));
        lemma_child_descends(rows, root, rows[at].parent, rows[at].pid);
    }
    if closed.contains(root) && (forall|i: int|
        0 <= i < rows.len() && closed.contains((#[trigger] rows[i]).parent) ==> closed.contains(
            rows[i].pid,
        )) && descends(rows, root, pid) {
        let chain = choose|chain: Seq<u32>|
            chain.len() > 0 && chain[0] == root && chain.last() == pid && #[trigger] is_chain(
                rows,
                chain,
            );
        lemma_closed_list(rows, root, closed, chain);
    }
}

/// A line of the table gives its first two words, where they are numbers, as the process and its
/// parent, and the third one as the command; a line with fewer words, or with something else in
/// place of a number, gives nothing.
pub proof fn law_lines_of_the_table_are_read(line: Seq<char>, pid: u32, parent: u32)
    ensures
        text::words_of(line).len() < 3 ==> row_on(line) is None,
        text::words_of(line).len() >= 3 && text::words_of(line)[0] == text::decimal_of(pid as nat)
            && text::words_of(line)[1] == text::decimal_of(parent as nat) ==> row_on(line) == Some(
            ProcessRowView { pid, parent, command: text::words_of(line)[2] },
        ),
        text::words_of(line).len() >= 3 && (text::unsigned_of(
            text::words_of(line)[0],
            0xffff_ffff,
        ) is None || text::unsigned_of(text::words_of(line)[1], 0xffff_ffff) is None) ==> row_on(
            line,
        ) is None,
{
    text::law_numbers_are_read_back(pid as nat, u32::MAX as nat, line);
    text::law_numbers_are_read_back(parent as nat, u32::MAX as nat, line);
}

/// The table is read line by line: a line that says something comes behind what was read before it,
/// and another one changes nothing.
pub proof fn law_the_table_is_read_in_order(lines: Seq<Seq<char>>, next: Seq<char>)
    ensures
        rows_on(Seq::empty()).len() == 0,
        row_on(next) is None ==> rows_on(lines.push(next)) == rows_on(lines),
        row_on(next) is Some ==> rows_on(lines.push(next)) == rows_on(lines).push(
            row_on(next)->Some_0,
        ),
{
    assert(lines.push(next).drop_last() =~= lines);
}

/// A restart of a process whose number is known reads the table of processes, stops what it has to,
/// pauses, sends the query and is complete when that is sent. Without a number or a table it pauses
/// at once. It fails where the query cannot be sent.
pub proof fn law_restarts_stop_then_send(
    root: u32,
    query: JsonView,
    table: Seq<char>,
    failure: ProcessErrorView,
)
    ensures
        ({
            let known = restart_of(Some(root), query);
            let rows = rows_on(text::lines_of(table));
            let listed = restart_advanced(known, RestartEventView::Listed(Some(table)));
            let stopped_then = restart_advanced(listed.0, RestartEventView::Stopped);
            let sent = restart_advanced(stopped_then.0, RestartEventView::Paused);
            let without = restart_advanced(known, RestartEventView::Listed(None));
            let unknown = restart_of(None, query);
            &&& first_restart_action(Some(root)) == RestartActionView::List
            &&& listed.1 == (RestartActionView::Stop {
                pids: stopped(rows, root, rows.len() as int),
            })
            &&& stopped_then.1 == RestartActionView::Pause
            &&& sent.1 == (RestartActionView::Send { query })
            &&& restart_advanced(sent.0, RestartEventView::Sent(Ok(()))).1
                == RestartActionView::Finish
            &&& restart_advanced(sent.0, RestartEventView::Sent(Err(failure))).1
                == RestartActionView::Fail(failure)
            &&& without.1 == RestartActionView::Pause
            &&& restart_advanced(without.0, RestartEventView::Paused).1
                == (RestartActionView::Send { query })
            &&& first_restart_action(None) == RestartActionView::Pause
            &&& restart_advanced(unknown, RestartEventView::Paused).1
                == (RestartActionView::Send { query })
        }),
{
}

} // verus!
