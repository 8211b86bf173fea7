//! Which sessions there are, whom they belong to, and when they end.
use crate::fstar::config::{FStarConfig, FStarConfigView};
use crate::locations::{self, Style};
use crate::session::digest;
use crate::session::error::{SessionError, SessionErrorView};
use crate::session::moment::{self, Moment, MomentView};
use crate::session::state::{Session, SessionView};
use crate::text;
use vstd::prelude::*;

verus! {

/// How many seconds pass between two sweeps.
pub const DEFAULT_SWEEP_PERIOD_SECS: u64 = 300;

/// How many seconds a check may take.
pub const DEFAULT_QUERY_TIMEOUT_SECS: u64 = 60;

/// How many sessions there may be at once.
pub const DEFAULT_MAX_SESSIONS: usize = 4;

/// After how many idle seconds a session that belongs to no client is swept.
pub const DEFAULT_IDLE_TIMEOUT_SECS: u64 = 1800;

/// By what a session is found: its owner, its file and its configuration.
#[derive(Debug)]
pub struct SessionKey {
    pub owner: String,
    /// The components of the path of the file.
    pub place: Vec<String>,
    pub fingerprint: String,
}

/// The model of a key.
pub struct SessionKeyView {
    pub owner: Seq<char>,
    pub place: Seq<Seq<char>>,
    pub fingerprint: Seq<char>,
}

impl View for SessionKey {
    type V = SessionKeyView;

    open spec fn view(&self) -> SessionKeyView {
        SessionKeyView {
            owner: self.owner@,
            place: text::texts(self.place@),
            fingerprint: self.fingerprint@,
        }
    }
}

/// True when both keys lead to the same session.
pub open spec fn same_key(a: SessionKeyView, b: SessionKeyView) -> bool {
    &&& a.owner == b.owner
    &&& a.place == b.place
    &&& a.fingerprint == b.fingerprint
}

/// The models of a list of keys.
pub open spec fn keys_view(keys: Seq<SessionKey>) -> Seq<SessionKeyView> {
    Seq::new(keys.len(), |i: int| keys[i]@)
}

/// True when the key is in the list.
pub open spec fn holds_key(keys: Seq<SessionKeyView>, key: SessionKeyView) -> bool {
    exists|i: int| 0 <= i < keys.len() && same_key(#[trigger] keys[i], key)
}

/// The list with the key in it.
pub open spec fn with_key(keys: Seq<SessionKeyView>, key: SessionKeyView) -> Seq<SessionKeyView> {
    if holds_key(keys, key) {
        keys
    } else {
        keys.push(key)
    }
}

/// The list without the key.
pub open spec fn without_key(keys: Seq<SessionKeyView>, key: SessionKeyView) -> Seq<SessionKeyView>
    decreases keys.len(),
{
    if keys.len() == 0 {
        keys
    } else {
        let rest = without_key(keys.drop_last(), key);
        if same_key(keys.last(), key) {
            rest
        } else {
            rest.push(keys.last())
        }
    }
}

/// The name under which the sessions of a client are kept.
pub open spec fn owner_name(mcp_session_id: Option<Seq<char>>) -> Seq<char> {
    match mcp_session_id {
        Some(id) => id,
        None => "stdio"@,
    }
}

/// What is kept of a session.
#[derive(Debug)]
pub struct SessionRecord {
    /// How the system writes paths.
    pub style: Style,
    pub id: String,
    pub file_path: String,
    pub fingerprint: String,
    pub created_at: Moment,
    pub mcp_session_id: Option<String>,
    pub last_activity: Moment,
    pub marked_for_deletion: bool,
    /// True when the file and the configuration lead to the session.
    pub indexed: bool,
}

/// The model of what is kept of a session.
pub struct SessionRecordView {
    pub style: Style,
    pub id: Seq<char>,
    pub file_path: Seq<char>,
    pub fingerprint: Seq<char>,
    pub created_at: MomentView,
    pub mcp_session_id: Option<Seq<char>>,
    pub last_activity: MomentView,
    pub marked_for_deletion: bool,
    pub indexed: bool,
}

impl View for SessionRecord {
    type V = SessionRecordView;

    open spec fn view(&self) -> SessionRecordView {
        SessionRecordView {
            style: self.style,
            id: self.id@,
            file_path: self.file_path@,
            fingerprint: self.fingerprint@,
            created_at: self.created_at@,
            mcp_session_id: text::opt_text(self.mcp_session_id),
            last_activity: self.last_activity@,
            marked_for_deletion: self.marked_for_deletion,
            indexed: self.indexed,
        }
    }
}

/// The models of a list of records.
pub open spec fn records_view(records: Seq<SessionRecord>) -> Seq<SessionRecordView> {
    Seq::new(records.len(), |i: int| records[i]@)
}

/// The key of a record.
pub open spec fn key_of(record: SessionRecordView) -> SessionKeyView {
    SessionKeyView {
        owner: owner_name(record.mcp_session_id),
        place: locations::components(record.style, record.file_path),
        fingerprint: record.fingerprint,
    }
}

/// The key of a file with a configuration for a client.
pub open spec fn key_for(
    style: Style,
    file_path: Seq<char>,
    mcp_session_id: Option<Seq<char>>,
    config: FStarConfigView,
) -> SessionKeyView {
    SessionKeyView {
        owner: owner_name(mcp_session_id),
        place: locations::components(style, file_path),
        fingerprint: digest::fingerprint_of(config),
    }
}

/// The record of a new session.
pub open spec fn record_of(session: SessionView) -> SessionRecordView {
    SessionRecordView {
        style: session.style,
        id: session.id,
        file_path: session.file_path,
        fingerprint: digest::fingerprint_of(session.config),
        created_at: session.created_at,
        mcp_session_id: session.mcp_session_id,
        last_activity: session.created_at,
        marked_for_deletion: false,
        indexed: true,
    }
}

/// The model of a list of sessions that have timed out.
pub open spec fn timeouts_view(timeouts: Seq<(String, u64)>) -> Seq<(Seq<char>, u64)> {
    Seq::new(timeouts.len(), |i: int| (timeouts[i].0@, timeouts[i].1))
}

/// After how many seconds a session has timed out.
pub open spec fn timeout_of(timeouts: Seq<(Seq<char>, u64)>, id: Seq<char>) -> Option<u64>
    decreases timeouts.len(),
{
    if timeouts.len() == 0 {
        None
    } else if timeouts.last().0 == id {
        Some(timeouts.last().1)
    } else {
        timeout_of(timeouts.drop_last(), id)
    }
}

/// The sessions of the server.
#[derive(Debug)]
pub struct SessionManager {
    style: Style,
    sessions: Vec<SessionRecord>,
    timed_out: Vec<(String, u64)>,
    evicted: Vec<SessionKey>,
    max_sessions: usize,
    idle_timeout_secs: u64,
}

/// The model of the sessions of the server.
pub struct ManagerView {
    pub style: Style,
    pub sessions: Seq<SessionRecordView>,
    pub timed_out: Seq<(Seq<char>, u64)>,
    pub evicted: Seq<SessionKeyView>,
    pub max_sessions: nat,
    pub idle_timeout_secs: u64,
}

impl View for SessionManager {
    type V = ManagerView;

    closed spec fn view(&self) -> ManagerView {
        ManagerView {
            style: self.style,
            sessions: records_view(self.sessions@),
            timed_out: timeouts_view(self.timed_out@),
            evicted: keys_view(self.evicted@),
            max_sessions: self.max_sessions as nat,
            idle_timeout_secs: self.idle_timeout_secs,
        }
    }
}

/// True for a record whose times the clock can show.
pub open spec fn is_timed(record: SessionRecordView) -> bool {
    moment::is_moment(record.created_at) && moment::is_moment(record.last_activity)
}

/// True when two records can be kept side by side: they have different identifiers, and not both
/// are found under the same key.
pub open spec fn coexist(a: SessionRecordView, b: SessionRecordView) -> bool {
    a.id != b.id && !(a.indexed && b.indexed && same_key(key_of(a), key_of(b)))
}

/// What holds of the records at any time.
pub open spec fn well_kept(sessions: Seq<SessionRecordView>) -> bool {
    &&& forall|i: int| 0 <= i < sessions.len() ==> is_timed(#[trigger] sessions[i])
    &&& forall|i: int, j: int|
        0 <= i < j < sessions.len() ==> coexist(#[trigger] sessions[i], #[trigger] sessions[j])
}

/// What holds of the sessions of the server at any time.
pub open spec fn is_consistent(manager: ManagerView) -> bool {
    well_kept(manager.sessions) && manager.max_sessions > 0
}

/// The place of the session with the identifier, or the number of sessions.
pub open spec fn place_of(sessions: Seq<SessionRecordView>, id: Seq<char>) -> nat
    decreases sessions.len(),
{
    if sessions.len() == 0 || sessions[0].id == id {
        0
    } else {
        1 + place_of(sessions.skip(1), id)
    }
}

/// True when there is a session with the identifier.
pub open spec fn is_known(sessions: Seq<SessionRecordView>, id: Seq<char>) -> bool {
    place_of(sessions, id) < sessions.len()
}

/// The session with the identifier.
pub open spec fn session_with(sessions: Seq<SessionRecordView>, id: Seq<char>) -> SessionRecordView {
    sessions[place_of(sessions, id) as int]
}

/// The sessions without the one with the identifier.
pub open spec fn closed(sessions: Seq<SessionRecordView>, id: Seq<char>) -> Seq<SessionRecordView> {
    if is_known(sessions, id) {
        sessions.remove(place_of(sessions, id) as int)
    } else {
        sessions
    }
}

/// The place of the session that a key leads to, or the number of sessions.
pub open spec fn place_under(sessions: Seq<SessionRecordView>, key: SessionKeyView) -> nat
    decreases sessions.len(),
{
    if sessions.len() == 0 || (sessions[0].indexed && same_key(key_of(sessions[0]), key)) {
        0
    } else {
        1 + place_under(sessions.skip(1), key)
    }
}

/// The identifier of the session that a key leads to.
pub open spec fn id_under(sessions: Seq<SessionRecordView>, key: SessionKeyView) -> Option<Seq<char>> {
    if place_under(sessions, key) < sessions.len() {
        Some(sessions[place_under(sessions, key) as int].id)
    } else {
        None
    }
}

/// The sessions once no key leads to those under `key` any more.
pub open spec fn unindexed(sessions: Seq<SessionRecordView>, key: SessionKeyView) -> Seq<
    SessionRecordView,
> {
    Seq::new(
        sessions.len(),
        |i: int|
            if same_key(key_of(sessions[i]), key) {
                SessionRecordView { indexed: false, ..sessions[i] }
            } else {
                sessions[i]
            },
    )
}

/// The sessions with a new one, to which its key leads from now on.
pub open spec fn with_session(
    sessions: Seq<SessionRecordView>,
    record: SessionRecordView,
) -> Seq<SessionRecordView> {
    unindexed(closed(sessions, record.id), key_of(record)).push(record)
}

/// `place_of` gives the first session with the identifier.
proof fn lemma_place_of(sessions: Seq<SessionRecordView>, id: Seq<char>)
    ensures
        place_of(sessions, id) <= sessions.len(),
        place_of(sessions, id) < sessions.len() ==> sessions[place_of(sessions, id) as int].id
            == id,
        forall|i: int|
            0 <= i < place_of(sessions, id) ==> (#[trigger] sessions[i]).id != id,
    decreases sessions.len(),
{
    if sessions.len() > 0 && sessions[0].id != id {
        let rest = sessions.skip(1);
        lemma_place_of(rest, id);
        assert forall|i: int| 0 <= i < place_of(sessions, id) implies (#[trigger] sessions[i]).id
            != id by {
            if i > 0 {
                assert(rest[i - 1] == sessions[i]);
            }
        }
    }
}

/// `place_under` gives the first session that the key leads to.
proof fn lemma_place_under(sessions: Seq<SessionRecordView>, key: SessionKeyView)
    ensures
        place_under(sessions, key) <= sessions.len(),
        place_under(sessions, key) < sessions.len() ==> ({
            let found = sessions[place_under(sessions, key) as int];
            found.indexed && same_key(key_of(found), key)
        }),
        forall|i: int|
            0 <= i < place_under(sessions, key) ==> !((#[trigger] sessions[i]).indexed && same_key(
                key_of(sessions[i]),
                key,
            )),
    decreases sessions.len(),
{
    if sessions.len() > 0 && !(sessions[0].indexed && same_key(key_of(sessions[0]), key)) {
        let rest = sessions.skip(1);
        lemma_place_under(rest, key);
        assert forall|i: int| 0 <= i < place_under(sessions, key) implies !((
        #[trigger] sessions[i]).indexed && same_key(key_of(sessions[i]), key)) by {
            if i > 0 {
                assert(rest[i - 1] == sessions[i]);
            }
        }
    }
}

/// Closing a session keeps the rest well kept, and none with its identifier stays.
proof fn lemma_closed(sessions: Seq<SessionRecordView>, id: Seq<char>)
    requires
        well_kept(sessions),
    ensures
        well_kept(closed(sessions, id)),
        forall|i: int| 0 <= i < closed(sessions, id).len() ==> (#[trigger] closed(sessions, id)[i]).id
            != id,
{
    lemma_place_of(sessions, id);
    let place = place_of(sessions, id) as int;
    let after = closed(sessions, id);
    if is_known(sessions, id) {
        assert forall|i: int, j: int| 0 <= i < j < after.len() implies coexist(
            #[trigger] after[i],
            #[trigger] after[j],
        ) by {
            let left = if i < place {
                i
            } else {
                i + 1
            };
            let right = if j < place {
                j
            } else {
                j + 1
            };
            assert(after[i] == sessions[left] && after[j] == sessions[right]);
        }
        assert forall|i: int| 0 <= i < after.len() implies (#[trigger] after[i]).id != id
            && is_timed(after[i]) by {
            if i < place {
                assert(after[i] == sessions[i]);
                assert(coexist(sessions[i], sessions[place]));
            } else {
                assert(after[i] == sessions[i + 1]);
                assert(coexist(sessions[place], sessions[i + 1]));
            }
        }
    }
}

/// A new session keeps the sessions well kept.
proof fn lemma_with_session(sessions: Seq<SessionRecordView>, record: SessionRecordView)
    requires
        well_kept(sessions),
        is_timed(record),
    ensures
        well_kept(with_session(sessions, record)),
{
    let rest = closed(sessions, record.id);
    lemma_closed(sessions, record.id);
    let loose = unindexed(rest, key_of(record));
    let after = with_session(sessions, record);
    assert forall|i: int| 0 <= i < after.len() implies is_timed(#[trigger] after[i]) by {
        if i < rest.len() {
            assert(is_timed(rest[i]));
        }
    }
    assert forall|i: int, j: int| 0 <= i < j < after.len() implies coexist(
        #[trigger] after[i],
        #[trigger] after[j],
    ) by {
        assert(rest[i].id != record.id);
        if j < rest.len() {
            assert(coexist(rest[i], rest[j]));
            assert(same_key(key_of(loose[i]), key_of(rest[i])));
        } else {
            assert(after[j] == record);
            assert(key_of(loose[i]) == key_of(rest[i]));
        }
    }
}

/// A session that has just been created is found by its file, its client and its configuration,
/// and no other session is found under them.
pub proof fn law_created_session_is_found(manager: ManagerView, session: SessionView)
    requires
        is_consistent(manager),
        moment::is_moment(session.created_at),
    ensures
        id_under(
            with_session(manager.sessions, record_of(session)),
            key_for(session.style, session.file_path, session.mcp_session_id, session.config),
        ) == Some(session.id),
{
    let record = record_of(session);
    let key = key_for(session.style, session.file_path, session.mcp_session_id, session.config);
    let after = with_session(manager.sessions, record);
    lemma_place_under(after, key);
    let last = after.len() - 1;
    assert(after[last] == record);
    assert(key_of(record) == key);
    let place = place_under(after, key) as int;
    if place < last {
        let rest = closed(manager.sessions, record.id);
        assert(after[place] == unindexed(rest, key)[place]);
        assert(key_of(after[place]) == key_of(rest[place]));
    }
}

/// A session that has been closed is gone: neither its identifier nor a key leads to it.
pub proof fn law_closed_session_is_gone(manager: ManagerView, id: Seq<char>, key: SessionKeyView)
    requires
        is_consistent(manager),
    ensures
        !is_known(closed(manager.sessions, id), id),
        id_under(closed(manager.sessions, id), key) != Some(id),
        is_known(manager.sessions, id) ==> closed(manager.sessions, id).len() + 1
            == manager.sessions.len(),
{
    let after = closed(manager.sessions, id);
    lemma_closed(manager.sessions, id);
    lemma_place_of(manager.sessions, id);
    lemma_place_of(after, id);
    lemma_place_under(after, key);
}

/// The place of the least recently used of the first `count` sessions that are not busy, or -1.
pub open spec fn least_recent(
    sessions: Seq<SessionRecordView>,
    busy: Seq<Seq<char>>,
    count: int,
) -> int
    decreases count,
{
    if count <= 0 {
        -1
    } else {
        let best = least_recent(sessions, busy, count - 1);
        let candidate = sessions[count - 1];
        if !busy.contains(candidate.id) && (best < 0 || moment::nanos_of(candidate.last_activity)
            < moment::nanos_of(sessions[best].last_activity)) {
            count - 1
        } else {
            best
        }
    }
}

/// `least_recent` gives a session that is not busy, and no other such session was used before it.
pub proof fn lemma_least_recent(
    sessions: Seq<SessionRecordView>,
    busy: Seq<Seq<char>>,
    count: int,
)
    requires
        0 <= count <= sessions.len(),
    ensures
        -1 <= least_recent(sessions, busy, count) < count,
        least_recent(sessions, busy, count) >= 0 ==> !busy.contains(
            sessions[least_recent(sessions, busy, count)].id,
        ),
        forall|i: int|
            0 <= i < count && !busy.contains((#[trigger] sessions[i]).id) ==> least_recent(
                sessions,
                busy,
                count,
            ) >= 0 && moment::nanos_of(
                sessions[least_recent(sessions, busy, count)].last_activity,
            ) <= moment::nanos_of(sessions[i].last_activity),
    decreases count,
{
    if count > 0 {
        lemma_least_recent(sessions, busy, count - 1);
    }
}

/// The sessions without the one at `place`, whose key is remembered.
pub open spec fn without_victim(manager: ManagerView, place: int) -> ManagerView {
    ManagerView {
        sessions: manager.sessions.remove(place),
        evicted: with_key(manager.evicted, key_of(manager.sessions[place])),
        ..manager
    }
}

/// The sessions once there is room for another one, and the identifiers of those that had to go:
/// the least recently used ones that are not busy, until there is room or all that are left are
/// busy.
pub open spec fn made_room(manager: ManagerView, busy: Seq<Seq<char>>) -> (
    ManagerView,
    Seq<Seq<char>>,
)
    decreases manager.sessions.len(),
{
    let place = least_recent(manager.sessions, busy, manager.sessions.len() as int);
    if manager.sessions.len() < manager.max_sessions || place < 0 {
        (manager, Seq::empty())
    } else {
        proof {
            lemma_least_recent(manager.sessions, busy, manager.sessions.len() as int);
        }
        let (after, ids) = made_room(without_victim(manager, place), busy);
        (after, seq![manager.sessions[place].id] + ids)
    }
}

/// Removing a session keeps the rest well kept.
proof fn lemma_removed(sessions: Seq<SessionRecordView>, place: int)
    requires
        well_kept(sessions),
        0 <= place < sessions.len(),
    ensures
        well_kept(sessions.remove(place)),
{
    let after = sessions.remove(place);
    assert forall|i: int| 0 <= i < after.len() implies is_timed(#[trigger] after[i]) by {
        let left = if i < place {
            i
        } else {
            i + 1
        };
        assert(after[i] == sessions[left]);
    }
    assert forall|i: int, j: int| 0 <= i < j < after.len() implies coexist(
        #[trigger] after[i],
        #[trigger] after[j],
    ) by {
        let left = if i < place {
            i
        } else {
            i + 1
        };
        let right = if j < place {
            j
        } else {
            j + 1
        };
        assert(after[i] == sessions[left] && after[j] == sessions[right]);
    }
}

/// Making room keeps the sessions consistent and spares those that are busy. Where none is busy,
/// there is room afterwards, so that with the new session there are no more than allowed.
pub proof fn law_there_is_room(manager: ManagerView, busy: Seq<Seq<char>>)
    requires
        is_consistent(manager),
    ensures
        is_consistent(made_room(manager, busy).0),
        made_room(manager, busy).0.max_sessions == manager.max_sessions,
        forall|i: int|
            0 <= i < made_room(manager, busy).1.len() ==> !busy.contains(
                #[trigger] made_room(manager, busy).1[i],
            ),
        made_room(manager, busy).0.sessions.len() >= manager.max_sessions ==> forall|i: int|
            0 <= i < made_room(manager, busy).0.sessions.len() ==> busy.contains(
                (#[trigger] made_room(manager, busy).0.sessions[i]).id,
            ),
        busy.len() == 0 ==> made_room(manager, busy).0.sessions.len() < manager.max_sessions,
    decreases manager.sessions.len(),
{
    let count = manager.sessions.len() as int;
    let place = least_recent(manager.sessions, busy, count);
    lemma_least_recent(manager.sessions, busy, count);
    if manager.sessions.len() >= manager.max_sessions && place >= 0 {
        lemma_removed(manager.sessions, place);
        let rest = without_victim(manager, place);
        law_there_is_room(rest, busy);
        let ids = made_room(rest, busy).1;
        let all = made_room(manager, busy).1;
        assert forall|i: int| 0 <= i < all.len() implies !busy.contains(#[trigger] all[i]) by {
            if i > 0 {
                assert(all[i] == ids[i - 1]);
            }
        }
    } else if manager.sessions.len() >= manager.max_sessions {
        assert(!busy.contains(manager.sessions[0].id) ==> place >= 0);
    }
}

/// The first session to go is the least recently used one of those that are not busy.
pub proof fn law_least_recently_used_goes_first(manager: ManagerView, busy: Seq<Seq<char>>)
    requires
        made_room(manager, busy).1.len() > 0,
    ensures
        exists|place: int|
            0 <= place < manager.sessions.len() && made_room(manager, busy).1[0] == (
            #[trigger] manager.sessions[place]).id && !busy.contains(manager.sessions[place].id)
                && forall|i: int|
                0 <= i < manager.sessions.len() && !busy.contains(
                    (#[trigger] manager.sessions[i]).id,
                ) ==> moment::nanos_of(manager.sessions[place].last_activity)
                    <= moment::nanos_of(manager.sessions[i].last_activity),
{
    let count = manager.sessions.len() as int;
    let place = least_recent(manager.sessions, busy, count);
    lemma_least_recent(manager.sessions, busy, count);
    assert(made_room(manager, busy).1[0] == manager.sessions[place].id);
}

/// What is done for a request for a session.
#[derive(Debug)]
pub enum Creation {
    /// There is one already.
    Existing { id: String },
    /// One is started once the processes of the closed ones are stopped. The cache is lost where
    /// an earlier session with the same key had to go.
    Start { closed: Vec<String>, cache_lost: bool },
}

/// True for a session that is swept: it is marked, or it belongs to no client and has been idle
/// for long enough.
pub open spec fn is_swept(record: SessionRecordView, now: MomentView, timeout: u64) -> bool {
    record.marked_for_deletion || (record.mcp_session_id is None && idle_seconds(record, now)
        >= timeout)
}

/// How many seconds a session has been idle; none where its clock is ahead.
pub open spec fn idle_seconds(record: SessionRecordView, now: MomentView) -> int {
    let seconds = moment::seconds_between(record.last_activity, now);
    if seconds > 0 {
        seconds
    } else {
        0
    }
}

/// The first `count` sessions without those that are swept.
pub open spec fn unswept(
    sessions: Seq<SessionRecordView>,
    now: MomentView,
    timeout: u64,
    count: int,
) -> Seq<SessionRecordView>
    decreases count,
{
    if count <= 0 {
        Seq::empty()
    } else if is_swept(sessions[count - 1], now, timeout) {
        unswept(sessions, now, timeout, count - 1)
    } else {
        unswept(sessions, now, timeout, count - 1).push(sessions[count - 1])
    }
}

/// The identifiers of those of the first `count` sessions that are swept.
pub open spec fn swept_ids(
    sessions: Seq<SessionRecordView>,
    now: MomentView,
    timeout: u64,
    count: int,
) -> Seq<Seq<char>>
    decreases count,
{
    if count <= 0 {
        Seq::empty()
    } else if is_swept(sessions[count - 1], now, timeout) {
        swept_ids(sessions, now, timeout, count - 1).push(sessions[count - 1].id)
    } else {
        swept_ids(sessions, now, timeout, count - 1)
    }
}

/// The keys that are remembered after a sweep: a session that is swept for being idle leaves its
/// key, one that is marked does not.
pub open spec fn keys_after_sweep(
    keys: Seq<SessionKeyView>,
    sessions: Seq<SessionRecordView>,
    now: MomentView,
    timeout: u64,
    count: int,
) -> Seq<SessionKeyView>
    decreases count,
{
    if count <= 0 {
        keys
    } else {
        let before = keys_after_sweep(keys, sessions, now, timeout, count - 1);
        let record = sessions[count - 1];
        if is_swept(record, now, timeout) && !record.marked_for_deletion {
            with_key(before, key_of(record))
        } else {
            before
        }
    }
}

/// The sessions after a sweep.
pub open spec fn swept(manager: ManagerView, now: MomentView) -> ManagerView {
    let count = manager.sessions.len() as int;
    ManagerView {
        sessions: unswept(manager.sessions, now, manager.idle_timeout_secs, count),
        evicted: keys_after_sweep(
            manager.evicted,
            manager.sessions,
            now,
            manager.idle_timeout_secs,
            count,
        ),
        ..manager
    }
}

/// What a sweep leaves is well kept, and is what was there and is not swept.
pub proof fn lemma_unswept(
    sessions: Seq<SessionRecordView>,
    now: MomentView,
    timeout: u64,
    count: int,
)
    requires
        well_kept(sessions),
        0 <= count <= sessions.len(),
    ensures
        well_kept(unswept(sessions, now, timeout, count)),
        forall|k: int|
            0 <= k < unswept(sessions, now, timeout, count).len() ==> exists|i: int|
                0 <= i < count && #[trigger] sessions[i] == #[trigger] unswept(
                    sessions,
                    now,
                    timeout,
                    count,
                )[k] && !is_swept(sessions[i], now, timeout),
        forall|i: int|
            0 <= i < count && !is_swept(#[trigger] sessions[i], now, timeout) ==> unswept(
                sessions,
                now,
                timeout,
                count,
            ).contains(sessions[i]),
        unswept(sessions, now, timeout, count).len() + swept_ids(
            sessions,
            now,
            timeout,
            count,
        ).len() == count,
    decreases count,
{
    if count > 0 {
        lemma_unswept(sessions, now, timeout, count - 1);
        let before = unswept(sessions, now, timeout, count - 1);
        let after = unswept(sessions, now, timeout, count);
        let last = sessions[count - 1];
        assert forall|k: int| 0 <= k < after.len() implies exists|i: int|
            0 <= i < count && #[trigger] sessions[i] == #[trigger] after[k] && !is_swept(
                sessions[i],
                now,
                timeout,
            ) by {
            if k < before.len() {
                assert(before[k] == after[k]);
                let i = choose|i: int|
                    0 <= i < count - 1 && #[trigger] sessions[i] == before[k] && !is_swept(
                        sessions[i],
                        now,
                        timeout,
                    );
                assert(sessions[i] == after[k]);
            } else {
                assert(sessions[count - 1] == after[k]);
            }
        }
        assert forall|i: int|
            0 <= i < count && !is_swept(
                #[trigger] sessions[i],
                now,
                timeout,
            ) implies after.contains(sessions[i]) by {
            if i < count - 1 {
                let k = before.index_of(sessions[i]);
                assert(after[k] == sessions[i]);
            } else {
                assert(after.last() == sessions[i]);
            }
        }
        assert forall|i: int, j: int| 0 <= i < j < after.len() implies coexist(
            #[trigger] after[i],
            #[trigger] after[j],
        ) by {
            assert(before[i] == after[i]);
            if j < before.len() {
                assert(before[j] == after[j]);
            } else {
                let k = choose|k: int|
                    0 <= k < count - 1 && #[trigger] sessions[k] == before[i] && !is_swept(
                        sessions[k],
                        now,
                        timeout,
                    );
                assert(coexist(sessions[k], sessions[count - 1]));
            }
        }
        assert forall|i: int| 0 <= i < after.len() implies is_timed(#[trigger] after[i]) by {
            if i < before.len() {
                assert(before[i] == after[i]);
            }
        }
    }
}

/// A sweep keeps exactly the sessions that are not marked and either belong to a client or have not
/// been idle for too long, keeps them consistent, and counts the others.
pub proof fn law_sweeps_take_what_is_due(manager: ManagerView, now: MomentView)
    requires
        is_consistent(manager),
    ensures
        is_consistent(swept(manager, now)),
        forall|i: int|
            0 <= i < manager.sessions.len() ==> (swept(manager, now).sessions.contains(
                #[trigger] manager.sessions[i],
            ) <==> !manager.sessions[i].marked_for_deletion && (
            manager.sessions[i].mcp_session_id is Some || (0 < manager.idle_timeout_secs
                && moment::seconds_between(manager.sessions[i].last_activity, now)
                < manager.idle_timeout_secs))),
        swept(manager, now).sessions.len() + swept_ids(
            manager.sessions,
            now,
            manager.idle_timeout_secs,
            manager.sessions.len() as int,
        ).len() == manager.sessions.len(),
{
    let count = manager.sessions.len() as int;
    let timeout = manager.idle_timeout_secs;
    lemma_unswept(manager.sessions, now, timeout, count);
    let after = swept(manager, now).sessions;
    assert forall|i: int| 0 <= i < manager.sessions.len() implies (after.contains(
        #[trigger] manager.sessions[i],
    ) <==> !is_swept(manager.sessions[i], now, timeout)) by {
        if after.contains(manager.sessions[i]) {
            let k = after.index_of(manager.sessions[i]);
            assert(after[k] == manager.sessions[i]);
        }
    }
}

/// What a client is told of a session.
#[derive(Debug)]
pub struct SessionInfo {
    pub session_id: String,
    pub file_path: String,
    pub created_at: String,
    pub last_activity: String,
    pub idle_seconds: i64,
    pub mcp_session_id: Option<String>,
    pub marked_for_deletion: bool,
}

/// The model of what a client is told of a session.
pub struct SessionInfoView {
    pub session_id: Seq<char>,
    pub file_path: Seq<char>,
    pub created_at: Seq<char>,
    pub last_activity: Seq<char>,
    pub idle_seconds: int,
    pub mcp_session_id: Option<Seq<char>>,
    pub marked_for_deletion: bool,
}

impl View for SessionInfo {
    type V = SessionInfoView;

    open spec fn view(&self) -> SessionInfoView {
        SessionInfoView {
            session_id: self.session_id@,
            file_path: self.file_path@,
            created_at: self.created_at@,
            last_activity: self.last_activity@,
            idle_seconds: self.idle_seconds as int,
            mcp_session_id: text::opt_text(self.mcp_session_id),
            marked_for_deletion: self.marked_for_deletion,
        }
    }
}

/// The models of what a client is told of sessions.
pub open spec fn infos_view(infos: Seq<SessionInfo>) -> Seq<SessionInfoView> {
    Seq::new(infos.len(), |i: int| infos[i]@)
}

/// What a client is told of a session.
pub open spec fn info_of(record: SessionRecordView, now: MomentView) -> SessionInfoView {
    SessionInfoView {
        session_id: record.id,
        file_path: record.file_path,
        created_at: record.created_at.text,
        last_activity: record.last_activity.text,
        idle_seconds: moment::seconds_between(record.last_activity, now),
        mcp_session_id: record.mcp_session_id,
        marked_for_deletion: record.marked_for_deletion,
    }
}

/// What a client is told of the first `count` sessions: only of its own, and of those that are
/// not marked.
pub open spec fn listed(
    sessions: Seq<SessionRecordView>,
    owner: Option<Seq<char>>,
    now: MomentView,
    count: int,
) -> Seq<SessionInfoView>
    decreases count,
{
    if count <= 0 {
        Seq::empty()
    } else {
        let before = listed(sessions, owner, now, count - 1);
        let record = sessions[count - 1];
        if record.mcp_session_id == owner && !record.marked_for_deletion {
            before.push(info_of(record, now))
        } else {
            before
        }
    }
}

/// A client sees sessions of its own only, each that is not marked among them.
pub proof fn law_clients_see_their_own_sessions(
    sessions: Seq<SessionRecordView>,
    owner: Option<Seq<char>>,
    now: MomentView,
    count: int,
)
    requires
        0 <= count <= sessions.len(),
    ensures
        forall|k: int|
            0 <= k < listed(sessions, owner, now, count).len() ==> (#[trigger] listed(
                sessions,
                owner,
                now,
                count,
            )[k]).mcp_session_id == owner && !listed(sessions, owner, now, count)[k].marked_for_deletion,
        forall|i: int|
            0 <= i < count && (#[trigger] sessions[i]).mcp_session_id == owner
                && !sessions[i].marked_for_deletion ==> listed(sessions, owner, now, count).contains(
                info_of(sessions[i], now),
            ),
    decreases count,
{
    if count > 0 {
        law_clients_see_their_own_sessions(sessions, owner, now, count - 1);
        let before = listed(sessions, owner, now, count - 1);
        let after = listed(sessions, owner, now, count);
        assert forall|i: int|
            0 <= i < count && (#[trigger] sessions[i]).mcp_session_id == owner
                && !sessions[i].marked_for_deletion implies after.contains(
            info_of(sessions[i], now),
        ) by {
            if i < count - 1 {
                let k = before.index_of(info_of(sessions[i], now));
                assert(after[k] == before[k]);
            } else {
                assert(after.last() == info_of(sessions[i], now));
            }
        }
    }
}

/// The sessions once those of a client are marked.
pub open spec fn marked(sessions: Seq<SessionRecordView>, owner: Seq<char>) -> Seq<
    SessionRecordView,
> {
    Seq::new(
        sessions.len(),
        |i: int|
            if sessions[i].mcp_session_id == Some(owner) {
                SessionRecordView { marked_for_deletion: true, ..sessions[i] }
            } else {
                sessions[i]
            },
    )
}

/// The identifiers of the sessions.
pub open spec fn ids_of(sessions: Seq<SessionRecordView>) -> Seq<Seq<char>> {
    Seq::new(sessions.len(), |i: int| sessions[i].id)
}

/// The number that a setting gives, or `default` where it is missing or no number.
pub open spec fn setting_or(setting: Option<Seq<char>>, max: nat, default: nat) -> nat {
    match setting {
        Some(value) => match text::unsigned_of(value, max) {
            Some(number) => number,
            None => default,
        },
        None => default,
    }
}

/// The number that a setting gives, or `default` where it is missing or no number.
pub fn read_setting(setting: Option<&str>, max: u64, default: u64) -> (number: u64)
    requires
        default <= max,
    ensures
        number as nat == setting_or(text::opt_str_text(setting), max as nat, default as nat),
        number <= max,
{
    match setting {
        Some(value) => match text::parse_unsigned(value, max) {
            Some(number) => number,
            None => default,
        },
        None => default,
    }
}

/// How many sessions there may be at once by a setting: at least one.
pub open spec fn session_limit(setting: Option<Seq<char>>) -> nat {
    let limit = setting_or(setting, usize::MAX as nat, DEFAULT_MAX_SESSIONS as nat);
    if limit > 0 {
        limit
    } else {
        1
    }
}

/// The name under which the sessions of a client are kept.
pub fn owner_key(mcp_session_id: Option<&str>) -> (owner: String)
    ensures
        owner@ == owner_name(text::opt_str_text(mcp_session_id)),
{
    match mcp_session_id {
        Some(id) => id.to_owned(),
        None => "stdio".to_owned(),
    }
}

impl SessionKey {
    /// True when both keys lead to the same session.
    fn same(&self, other: &SessionKey) -> (equal: bool)
        ensures
            equal == same_key(self@, other@),
    {
        text::same(self.owner.as_str(), other.owner.as_str()) && text::same_list(
            &self.place,
            &other.place,
        ) && text::same(self.fingerprint.as_str(), other.fingerprint.as_str())
    }

    /// The key of a file with a configuration for a client.
    fn new(
        style: Style,
        file_path: &str,
        mcp_session_id: Option<&str>,
        config: &FStarConfig,
    ) -> (key: SessionKey)
        ensures
            key@ == key_for(style, file_path@, text::opt_str_text(mcp_session_id), config@),
    {
        SessionKey {
            owner: owner_key(mcp_session_id),
            place: locations::split(style, file_path),
            fingerprint: digest::config_fingerprint(config),
        }
    }
}

impl SessionRecord {
    /// The key of the record.
    fn key(&self) -> (key: SessionKey)
        ensures
            key@ == key_of(self@),
    {
        SessionKey {
            owner: owner_key(text::borrow_option(&self.mcp_session_id)),
            place: locations::split(self.style, self.file_path.as_str()),
            fingerprint: self.fingerprint.clone(),
        }
    }

    /// How many seconds the session has been idle, whether or not its clock is ahead.
    fn idle_seconds(&self, now: &Moment) -> (seconds: i64)
        requires
            is_timed(self@),
            moment::is_moment(now@),
        ensures
            seconds == moment::seconds_between(self@.last_activity, now@),
    {
        self.last_activity.seconds_until(now)
    }
}

/// True when the key is in the list.
fn contains_key(keys: &Vec<SessionKey>, key: &SessionKey) -> (found: bool)
    ensures
        found == holds_key(keys_view(keys@), key@),
{
    let mut index: usize = 0;
    while index < keys.len()
        invariant
            index <= keys@.len(),
            forall|i: int| 0 <= i < index ==> !same_key(#[trigger] keys_view(keys@)[i], key@),
        decreases keys@.len() - index,
    {
        assert(keys_view(keys@)[index as int] == keys@[index as int]@);
        if keys[index].same(key) {
            return true;
        }
        index += 1;
    }
    false
}

/// Puts a key into the list.
fn add_key(keys: &mut Vec<SessionKey>, key: SessionKey)
    ensures
        keys_view(final(keys)@) == with_key(keys_view(old(keys)@), key@),
{
    if !contains_key(keys, &key) {
        let ghost before = keys_view(keys@);
        keys.push(key);
        assert(keys_view(keys@) =~= before.push(key@));
    }
}

/// Takes a key out of the list.
fn remove_key(keys: &mut Vec<SessionKey>, key: &SessionKey) -> (found: bool)
    ensures
        found == holds_key(keys_view(old(keys)@), key@),
        keys_view(final(keys)@) == without_key(keys_view(old(keys)@), key@),
{
    let found = contains_key(keys, key);
    let ghost all = keys_view(keys@);
    let mut index: usize = 0;
    let ghost mut done: int = 0;
    assert(all.take(0) =~= Seq::empty());
    assert(keys_view(keys@) =~= without_key(all.take(0), key@) + all.skip(0));
    while index < keys.len()
        invariant
            0 <= done <= all.len(),
            index <= keys@.len(),
            index == without_key(all.take(done), key@).len(),
            keys@.len() - index == all.len() - done,
            keys_view(keys@) == without_key(all.take(done), key@) + all.skip(done),
        decreases keys@.len() - index,
    {
        let ghost before = keys_view(keys@);
        assert(before[index as int] == all[done]);
        assert(all.take(done + 1).drop_last() =~= all.take(done));
        assert(all.skip(done) =~= seq![all[done]] + all.skip(done + 1));
        if keys[index].same(key) {
            keys.remove(index);
            assert(keys_view(keys@) =~= before.remove(index as int));
            assert(keys_view(keys@) =~= without_key(all.take(done + 1), key@) + all.skip(
                done + 1,
            ));
        } else {
            index += 1;
            assert(keys_view(keys@) =~= without_key(all.take(done + 1), key@) + all.skip(
                done + 1,
            ));
        }
        proof {
            done = done + 1;
        }
    }
    assert(all.take(done) =~= all);
    assert(keys_view(keys@) =~= without_key(all, key@));
    found
}

impl SessionManager {
    /// No sessions yet, with the limits that the settings give.
    pub fn new(style: Style, max_sessions: Option<&str>, idle_timeout: Option<&str>) -> (manager:
        SessionManager)
        ensures
            is_consistent(manager@),
            manager@ == (ManagerView {
                style,
                sessions: Seq::empty(),
                timed_out: Seq::empty(),
                evicted: Seq::empty(),
                max_sessions: session_limit(text::opt_str_text(max_sessions)),
                idle_timeout_secs: manager@.idle_timeout_secs,
            }),
            manager@.idle_timeout_secs as nat == setting_or(
                text::opt_str_text(idle_timeout),
                u64::MAX as nat,
                DEFAULT_IDLE_TIMEOUT_SECS as nat,
            ),
    {
        let limit: u64 = read_setting(
            max_sessions,
            usize::MAX as u64,
            DEFAULT_MAX_SESSIONS as u64,
        );
        let manager = SessionManager {
            style,
            sessions: Vec::new(),
            timed_out: Vec::new(),
            evicted: Vec::new(),
            max_sessions: if limit > 0 {
                limit as usize
            } else {
                1
            },
            idle_timeout_secs: read_setting(idle_timeout, u64::MAX, DEFAULT_IDLE_TIMEOUT_SECS),
        };
        assert(manager@.sessions =~= Seq::empty());
        assert(manager@.timed_out =~= Seq::empty());
        assert(manager@.evicted =~= Seq::empty());
        manager
    }

    /// The number of sessions.
    pub fn count(&self) -> (count: usize)
        ensures
            count == self@.sessions.len(),
    {
        self.sessions.len()
    }

    /// The place of the session with the identifier, or the number of sessions.
    fn find(&self, id: &str) -> (place: usize)
        ensures
            place == place_of(self@.sessions, id@),
            place <= self.sessions@.len(),
    {
        let ghost all = self@.sessions;
        let mut index: usize = 0;
        assert(all.skip(0) =~= all);
        while index < self.sessions.len()
            invariant
                index <= self.sessions@.len(),
                all == self@.sessions,
                place_of(all, id@) == index + place_of(all.skip(index as int), id@),
            decreases self.sessions@.len() - index,
        {
            assert(all.skip(index as int)[0] == self.sessions@[index as int]@);
            if text::same(self.sessions[index].id.as_str(), id) {
                return index;
            }
            assert(all.skip(index as int).skip(1) =~= all.skip(index + 1));
            index += 1;
        }
        index
    }

    /// After how many seconds the session has timed out, where it has.
    pub fn get_timeout_info(&self, session_id: &str) -> (seconds: Option<u64>)
        ensures
            seconds == timeout_of(self@.timed_out, session_id@),
    {
        let ghost all = self@.timed_out;
        let mut index: usize = self.timed_out.len();
        assert(all.take(index as int) =~= all);
        while index > 0
            invariant
                index <= self.timed_out@.len(),
                all == self@.timed_out,
                timeout_of(all, session_id@) == timeout_of(all.take(index as int), session_id@),
            decreases index,
        {
            assert(all.take(index as int).last() == (
                self.timed_out@[index - 1].0@,
                self.timed_out@[index - 1].1,
            ));
            assert(all.take(index as int).drop_last() =~= all.take(index - 1));
            if text::same(self.timed_out[index - 1].0.as_str(), session_id) {
                return Some(self.timed_out[index - 1].1);
            }
            index -= 1;
        }
        None
    }

    /// The identifier of the session that a key leads to.
    fn find_key(&self, key: &SessionKey) -> (id: Option<String>)
        ensures
            text::opt_text(id) == id_under(self@.sessions, key@),
    {
        let ghost all = self@.sessions;
        let mut index: usize = 0;
        assert(all.skip(0) =~= all);
        while index < self.sessions.len()
            invariant
                index <= self.sessions@.len(),
                all == self@.sessions,
                place_under(all, key@) == index + place_under(all.skip(index as int), key@),
            decreases self.sessions@.len() - index,
        {
            let record = &self.sessions[index];
            assert(all.skip(index as int)[0] == record@);
            if record.indexed && record.key().same(key) {
                return Some(record.id.clone());
            }
            assert(all.skip(index as int).skip(1) =~= all.skip(index + 1));
            index += 1;
        }
        None
    }

    /// The identifier of the session of a client for a file with a configuration.
    pub fn find_by_path(
        &self,
        file_path: &str,
        mcp_session_id: Option<&str>,
        config: &FStarConfig,
    ) -> (id: Option<String>)
        ensures
            text::opt_text(id) == id_under(
                self@.sessions,
                key_for(self@.style, file_path@, text::opt_str_text(mcp_session_id), config@),
            ),
    {
        self.find_key(&SessionKey::new(self.style, file_path, mcp_session_id, config))
    }

    /// The session with the identifier, for the client that it belongs to.
    pub fn get_owned(&self, session_id: &str, mcp_session_id: Option<&str>) -> (result: Result<
        &SessionRecord,
        SessionError,
    >)
        ensures
            match result {
                Ok(record) => {
                    &&& is_known(self@.sessions, session_id@)
                    &&& record@ == session_with(self@.sessions, session_id@)
                    &&& record@.mcp_session_id == text::opt_str_text(mcp_session_id)
                },
                Err(error) => if is_known(self@.sessions, session_id@) {
                    &&& error@ == (SessionErrorView::NotOwned { session_id: session_id@ })
                    &&& session_with(self@.sessions, session_id@).mcp_session_id
                        != text::opt_str_text(mcp_session_id)
                } else {
                    error@ == SessionErrorView::NotFound(session_id@)
                },
            },
    {
        let place: usize = self.find(session_id);
        if place >= self.sessions.len() {
            return Err(SessionError::NotFound(session_id.to_owned()));
        }
        let record = &self.sessions[place];
        if !text::same_option(text::borrow_option(&record.mcp_session_id), mcp_session_id) {
            return Err(SessionError::NotOwned { session_id: session_id.to_owned() });
        }
        Ok(record)
    }

    /// Notes that a session has been used.
    pub fn touch(&mut self, session_id: &str, now: &Moment)
        requires
            is_consistent(old(self)@),
            moment::is_moment(now@),
        ensures
            is_consistent(final(self)@),
            final(self)@ == (ManagerView {
                sessions: if is_known(old(self)@.sessions, session_id@) {
                    old(self)@.sessions.update(
                        place_of(old(self)@.sessions, session_id@) as int,
                        SessionRecordView {
                            last_activity: now@,
                            ..session_with(old(self)@.sessions, session_id@)
                        },
                    )
                } else {
                    old(self)@.sessions
                },
                ..old(self)@
            }),
    {
        let place: usize = self.find(session_id);
        if place < self.sessions.len() {
            let ghost before = self@.sessions;
            let mut record = self.sessions.remove(place);
            record.last_activity = now.copy();
            self.sessions.insert(place, record);
            assert(self@.sessions =~= before.update(place as int, record@));
            proof {
                lemma_touched(before, place as int, record@);
            }
        }
    }

    /// The least recently used session that is not busy, or the number of sessions.
    fn find_least_recent(&self, busy: &Vec<String>) -> (place: usize)
        requires
            well_kept(self@.sessions),
        ensures
            ({
                let count = self@.sessions.len() as int;
                let best = least_recent(self@.sessions, text::texts(busy@), count);
                place == if best < 0 {
                    count
                } else {
                    best
                }
            }),
    {
        let ghost all = self@.sessions;
        let ghost names = text::texts(busy@);
        let mut best: Option<usize> = None;
        let mut index: usize = 0;
        while index < self.sessions.len()
            invariant
                index <= self.sessions@.len(),
                all == self@.sessions,
                well_kept(all),
                names == text::texts(busy@),
                least_recent(all, names, index as int) == match best {
                    Some(place) => place as int,
                    None => -1,
                },
                best matches Some(place) ==> place < index,
            decreases self.sessions@.len() - index,
        {
            let record = &self.sessions[index];
            assert(all[index as int] == record@);
            assert(is_timed(all[index as int]));
            if !text::list_contains(busy, record.id.as_str()) {
                let older = match best {
                    Some(place) => {
                        assert(all[place as int] == self.sessions@[place as int]@);
                        assert(is_timed(all[place as int]));
                        record.last_activity.is_before(&self.sessions[place].last_activity)
                    },
                    None => true,
                };
                if older {
                    best = Some(index);
                }
            }
            index += 1;
        }
        match best {
            Some(place) => place,
            None => self.sessions.len(),
        }
    }

    /// Makes room for another session, and gives the identifiers of those that had to go.
    pub fn evict_lru_if_needed(&mut self, busy: &Vec<String>) -> (ids: Vec<String>)
        requires
            is_consistent(old(self)@),
        ensures
            is_consistent(final(self)@),
            (final(self)@, text::texts(ids@)) == made_room(old(self)@, text::texts(busy@)),
    {
        let ghost names = text::texts(busy@);
        let mut ids: Vec<String> = Vec::new();
        proof {
            law_there_is_room(self@, names);
        }
        assert(text::texts(ids@) + made_room(self@, names).1 =~= made_room(self@, names).1);
        while self.sessions.len() >= self.max_sessions
            invariant
                names == text::texts(busy@),
                is_consistent(self@),
                is_consistent(made_room(old(self)@, names).0),
                made_room(self@, names).0 == made_room(old(self)@, names).0,
                text::texts(ids@) + made_room(self@, names).1 == made_room(old(self)@, names).1,
            decreases self@.sessions.len(),
        {
            proof {
                lemma_least_recent(self@.sessions, names, self@.sessions.len() as int);
            }
            let place: usize = self.find_least_recent(busy);
            if place >= self.sessions.len() {
                assert(text::texts(ids@) + Seq::<Seq<char>>::empty() =~= text::texts(ids@));
                return ids;
            }
            let ghost before = self@;
            let ghost noted = text::texts(ids@);
            let record = self.sessions.remove(place);
            assert(self@.sessions =~= before.sessions.remove(place as int));
            add_key(&mut self.evicted, record.key());
            proof {
                lemma_removed(before.sessions, place as int);
                assert(self@ == without_victim(before, place as int));
            }
            ids.push(record.id);
            assert(text::texts(ids@) =~= noted.push(record.id@));
            assert(text::texts(ids@) + made_room(self@, names).1 =~= noted + (seq![record.id@]
                + made_room(self@, names).1));
        }
        assert(text::texts(ids@) + Seq::<Seq<char>>::empty() =~= text::texts(ids@));
        ids
    }

    /// Decides on a request for a session: the one that there is for the file is used; for a new
    /// one room is made. The sessions in `busy` are in the middle of a check.
    pub fn create_session(
        &mut self,
        file_path: &str,
        config: &FStarConfig,
        mcp_session_id: Option<&str>,
        busy: &Vec<String>,
    ) -> (creation: Creation)
        requires
            is_consistent(old(self)@),
        ensures
            is_consistent(final(self)@),
            ({
                let key = key_for(
                    old(self)@.style,
                    file_path@,
                    text::opt_str_text(mcp_session_id),
                    config@,
                );
                let (roomy, ids) = made_room(old(self)@, text::texts(busy@));
                match creation {
                    Creation::Existing { id } => {
                        &&& id_under(old(self)@.sessions, key) == Some(id@)
                        &&& final(self)@ == old(self)@
                    },
                    Creation::Start { closed, cache_lost } => {
                        &&& id_under(old(self)@.sessions, key) is None
                        &&& text::texts(closed@) == ids
                        &&& cache_lost == holds_key(roomy.evicted, key)
                        &&& final(self)@ == (ManagerView {
                            evicted: without_key(roomy.evicted, key),
                            ..roomy
                        })
                    },
                }
            }),
    {
        let key = SessionKey::new(self.style, file_path, mcp_session_id, config);
        match self.find_key(&key) {
            Some(id) => Creation::Existing { id },
            None => {
                let closed = self.evict_lru_if_needed(busy);
                let cache_lost = remove_key(&mut self.evicted, &key);
                Creation::Start { closed, cache_lost }
            },
        }
    }

    /// Keeps a new session; its key leads to it from now on.
    pub fn insert_session(&mut self, session: &Session)
        requires
            is_consistent(old(self)@),
            moment::is_moment(session@.created_at),
        ensures
            is_consistent(final(self)@),
            final(self)@ == (ManagerView {
                sessions: with_session(old(self)@.sessions, record_of(session@)),
                ..old(self)@
            }),
    {
        let ghost all = self@.sessions;
        let record = SessionRecord {
            style: session.style,
            id: session.id.clone(),
            file_path: session.file_path.clone(),
            fingerprint: digest::config_fingerprint(&session.config),
            created_at: session.created_at.copy(),
            mcp_session_id: text::copy_option(&session.mcp_session_id),
            last_activity: session.created_at.copy(),
            marked_for_deletion: false,
            indexed: true,
        };
        proof {
            lemma_with_session(all, record@);
            lemma_place_of(all, record@.id);
        }
        let key = record.key();
        let place: usize = self.find(record.id.as_str());
        if place < self.sessions.len() {
            let _ = self.sessions.remove(place);
            assert(self@.sessions =~= closed(all, record@.id));
        }
        let ghost rest = self@.sessions;
        let mut index: usize = 0;
        assert(unindexed(rest, key@).take(0) + rest.skip(0) =~= rest);
        while index < self.sessions.len()
            invariant
                index <= self.sessions@.len() == rest.len(),
                self@.sessions == unindexed(rest, key@).take(index as int) + rest.skip(
                    index as int,
                ),
                self@ == (ManagerView { sessions: self@.sessions, ..old(self)@ }),
            decreases self.sessions@.len() - index,
        {
            let ghost before = self@.sessions;
            assert(before[index as int] == rest[index as int]);
            assert(before[index as int] == self.sessions@[index as int]@);
            if self.sessions[index].key().same(&key) {
                let mut loose = self.sessions.remove(index);
                loose.indexed = false;
                self.sessions.insert(index, loose);
                assert(self@.sessions =~= before.update(index as int, loose@));
            }
            assert(self@.sessions =~= unindexed(rest, key@).take(index + 1) + rest.skip(index + 1));
            index += 1;
        }
        assert(self@.sessions =~= unindexed(rest, key@));
        let ghost loose = self@.sessions;
        self.sessions.push(record);
        assert(self@.sessions =~= loose.push(record@));
    }

    /// Ends a session whose time is over. False where it has been closed before.
    pub fn expire(&mut self, session_id: &str, seconds: u64) -> (ended: bool)
        requires
            is_consistent(old(self)@),
        ensures
            is_consistent(final(self)@),
            ended == is_known(old(self)@.sessions, session_id@),
            final(self)@ == (ManagerView {
                sessions: closed(old(self)@.sessions, session_id@),
                timed_out: if ended {
                    old(self)@.timed_out.push((session_id@, seconds))
                } else {
                    old(self)@.timed_out
                },
                ..old(self)@
            }),
    {
        let place: usize = self.find(session_id);
        proof {
            lemma_closed(self@.sessions, session_id@);
        }
        if place >= self.sessions.len() {
            return false;
        }
        let ghost before = self@;
        let _ = self.sessions.remove(place);
        assert(self@.sessions =~= before.sessions.remove(place as int));
        self.timed_out.push((session_id.to_owned(), seconds));
        assert(self@.timed_out =~= before.timed_out.push((session_id@, seconds)));
        true
    }

    /// Closes a session, for the client that it belongs to or by force.
    pub fn close_session(
        &mut self,
        session_id: &str,
        mcp_session_id: Option<&str>,
        force: bool,
    ) -> (result: Result<(), SessionError>)
        requires
            is_consistent(old(self)@),
        ensures
            is_consistent(final(self)@),
            ({
                let sessions = old(self)@.sessions;
                let known = is_known(sessions, session_id@);
                let owned = session_with(sessions, session_id@).mcp_session_id
                    == text::opt_str_text(mcp_session_id);
                match result {
                    Ok(_) => {
                        &&& known
                        &&& force || owned
                        &&& final(self)@ == (ManagerView {
                            sessions: closed(sessions, session_id@),
                            ..old(self)@
                        })
                    },
                    Err(error) => {
                        &&& final(self)@ == old(self)@
                        &&& if known {
                            &&& !force && !owned
                            &&& error@ == (SessionErrorView::NotOwned { session_id: session_id@ })
                        } else {
                            error@ == SessionErrorView::NotFound(session_id@)
                        }
                    },
                }
            }),
    {
        let place: usize = self.find(session_id);
        proof {
            lemma_closed(self@.sessions, session_id@);
        }
        if place >= self.sessions.len() {
            return Err(SessionError::NotFound(session_id.to_owned()));
        }
        if !force && !text::same_option(
            text::borrow_option(&self.sessions[place].mcp_session_id),
            mcp_session_id,
        ) {
            return Err(SessionError::NotOwned { session_id: session_id.to_owned() });
        }
        let ghost before = self@;
        let _ = self.sessions.remove(place);
        assert(self@.sessions =~= before.sessions.remove(place as int));
        Ok(())
    }

    /// What a client is told of its sessions.
    pub fn list_sessions(&self, mcp_session_id: Option<&str>, now: &Moment) -> (infos: Vec<
        SessionInfo,
    >)
        requires
            is_consistent(self@),
            moment::is_moment(now@),
        ensures
            infos_view(infos@) == listed(
                self@.sessions,
                text::opt_str_text(mcp_session_id),
                now@,
                self@.sessions.len() as int,
            ),
    {
        let ghost owner = text::opt_str_text(mcp_session_id);
        let mut infos: Vec<SessionInfo> = Vec::new();
        let mut index: usize = 0;
        assert(infos_view(infos@) =~= Seq::empty());
        while index < self.sessions.len()
            invariant
                index <= self.sessions@.len(),
                is_consistent(self@),
                moment::is_moment(now@),
                owner == text::opt_str_text(mcp_session_id),
                infos_view(infos@) == listed(self@.sessions, owner, now@, index as int),
            decreases self.sessions@.len() - index,
        {
            let record = &self.sessions[index];
            assert(self@.sessions[index as int] == record@);
            assert(is_timed(self@.sessions[index as int]));
            let ghost before = infos_view(infos@);
            if text::same_option(text::borrow_option(&record.mcp_session_id), mcp_session_id)
                && !record.marked_for_deletion {
                let info = SessionInfo {
                    session_id: record.id.clone(),
                    file_path: record.file_path.clone(),
                    created_at: record.created_at.text.clone(),
                    last_activity: record.last_activity.text.clone(),
                    idle_seconds: record.idle_seconds(now),
                    mcp_session_id: text::copy_option(&record.mcp_session_id),
                    marked_for_deletion: record.marked_for_deletion,
                };
                infos.push(info);
                assert(infos_view(infos@) =~= before.push(info@));
            }
            index += 1;
        }
        infos
    }

    /// Marks the sessions of a client that has gone; the next sweep takes them.
    pub fn mark_sessions_for_deletion(&mut self, mcp_session_id: &str)
        requires
            is_consistent(old(self)@),
        ensures
            is_consistent(final(self)@),
            final(self)@ == (ManagerView {
                sessions: marked(old(self)@.sessions, mcp_session_id@),
                ..old(self)@
            }),
    {
        let ghost all = self@.sessions;
        let ghost after = marked(all, mcp_session_id@);
        let mut index: usize = 0;
        assert(after.take(0) + all.skip(0) =~= all);
        while index < self.sessions.len()
            invariant
                index <= self.sessions@.len() == all.len(),
                after == marked(all, mcp_session_id@),
                self@.sessions == after.take(index as int) + all.skip(index as int),
                self@ == (ManagerView { sessions: self@.sessions, ..old(self)@ }),
            decreases self.sessions@.len() - index,
        {
            let ghost before = self@.sessions;
            assert(before[index as int] == all[index as int]);
            assert(before[index as int] == self.sessions@[index as int]@);
            if text::same_option(
                text::borrow_option(&self.sessions[index].mcp_session_id),
                Some(mcp_session_id),
            ) {
                let mut record = self.sessions.remove(index);
                record.marked_for_deletion = true;
                self.sessions.insert(index, record);
                assert(self@.sessions =~= before.update(index as int, record@));
            }
            assert(self@.sessions =~= after.take(index + 1) + all.skip(index + 1));
            index += 1;
        }
        assert(self@.sessions =~= after);
        proof {
            lemma_marked(all, mcp_session_id@);
        }
    }

    /// Takes out the sessions that are marked, and those of no client that have been idle for too
    /// long, and gives their identifiers.
    pub fn sweep_marked_sessions(&mut self, now: &Moment) -> (ids: Vec<String>)
        requires
            is_consistent(old(self)@),
            moment::is_moment(now@),
        ensures
            is_consistent(final(self)@),
            final(self)@ == swept(old(self)@, now@),
            text::texts(ids@) == swept_ids(
                old(self)@.sessions,
                now@,
                old(self)@.idle_timeout_secs,
                old(self)@.sessions.len() as int,
            ),
    {
        let ghost all = self@.sessions;
        let ghost keys = self@.evicted;
        let ghost mut done: int = 0;
        let timeout: u64 = self.idle_timeout_secs;
        let mut ids: Vec<String> = Vec::new();
        let mut index: usize = 0;
        assert(text::texts(ids@) =~= Seq::empty());
        assert(unswept(all, now@, timeout, 0) + all.skip(0) =~= all);
        while index < self.sessions.len()
            invariant
                0 <= done <= all.len(),
                well_kept(all),
                moment::is_moment(now@),
                index == unswept(all, now@, timeout, done).len(),
                index <= self.sessions@.len(),
                self.sessions@.len() - index == all.len() - done,
                self@.sessions == unswept(all, now@, timeout, done) + all.skip(done),
                self@.evicted == keys_after_sweep(keys, all, now@, timeout, done),
                self@ == (ManagerView {
                    sessions: self@.sessions,
                    evicted: self@.evicted,
                    ..old(self)@
                }),
                text::texts(ids@) == swept_ids(all, now@, timeout, done),
            decreases self.sessions@.len() - index,
        {
            let ghost before = self@.sessions;
            let ghost noted = text::texts(ids@);
            assert(before[index as int] == all[done]);
            assert(before[index as int] == self.sessions@[index as int]@);
            assert(is_timed(all[done]));
            let record = &self.sessions[index];
            let marked_record = record.marked_for_deletion;
            let idle: i64 = record.idle_seconds(now);
            let due = marked_record || (record.mcp_session_id.is_none() && (timeout == 0 || (idle > 0
                && idle as u64 >= timeout)));
            if due {
                let gone = self.sessions.remove(index);
                assert(self@.sessions =~= before.remove(index as int));
                if !marked_record {
                    add_key(&mut self.evicted, gone.key());
                }
                ids.push(gone.id);
                assert(text::texts(ids@) =~= noted.push(gone.id@));
                assert(self@.sessions =~= unswept(all, now@, timeout, done + 1) + all.skip(
                    done + 1,
                ));
            } else {
                index += 1;
                assert(self@.sessions =~= unswept(all, now@, timeout, done + 1) + all.skip(
                    done + 1,
                ));
            }
            proof {
                done = done + 1;
            }
        }
        assert(self@.sessions =~= unswept(all, now@, timeout, all.len() as int));
        proof {
            lemma_unswept(all, now@, timeout, all.len() as int);
        }
        ids
    }

    /// Takes out all sessions, and gives their identifiers.
    pub fn close_all(&mut self) -> (ids: Vec<String>)
        requires
            is_consistent(old(self)@),
        ensures
            is_consistent(final(self)@),
            final(self)@ == (ManagerView { sessions: Seq::empty(), ..old(self)@ }),
            text::texts(ids@) == ids_of(old(self)@.sessions),
    {
        let mut ids: Vec<String> = Vec::new();
        let mut index: usize = 0;
        while index < self.sessions.len()
            invariant
                index <= self.sessions@.len(),
                ids@.len() == index,
                forall|i: int| 0 <= i < index ==> (#[trigger] ids@[i])@ == self.sessions@[i].id@,
            decreases self.sessions@.len() - index,
        {
            ids.push(self.sessions[index].id.clone());
            index += 1;
        }
        assert(text::texts(ids@) =~= ids_of(self@.sessions));
        self.sessions = Vec::new();
        assert(self@.sessions =~= Seq::empty());
        ids
    }
}

/// A later use of a session keeps the sessions well kept.
proof fn lemma_touched(sessions: Seq<SessionRecordView>, place: int, record: SessionRecordView)
    requires
        well_kept(sessions),
        0 <= place < sessions.len(),
        record == (SessionRecordView { last_activity: record.last_activity, ..sessions[place] }),
        moment::is_moment(record.last_activity),
    ensures
        well_kept(sessions.update(place, record)),
{
    let after = sessions.update(place, record);
    assert(is_timed(sessions[place]));
    assert forall|i: int| 0 <= i < after.len() implies is_timed(#[trigger] after[i]) by {
        assert(is_timed(sessions[i]));
    }
    assert forall|i: int, j: int| 0 <= i < j < after.len() implies coexist(
        #[trigger] after[i],
        #[trigger] after[j],
    ) by {
        assert(coexist(sessions[i], sessions[j]));
    }
}

/// Marks keep the sessions well kept.
proof fn lemma_marked(sessions: Seq<SessionRecordView>, owner: Seq<char>)
    requires
        well_kept(sessions),
    ensures
        well_kept(marked(sessions, owner)),
{
    let after = marked(sessions, owner);
    assert forall|i: int| 0 <= i < after.len() implies is_timed(#[trigger] after[i]) by {
        assert(is_timed(sessions[i]));
    }
    assert forall|i: int, j: int| 0 <= i < j < after.len() implies coexist(
        #[trigger] after[i],
        #[trigger] after[j],
    ) by {
        assert(coexist(sessions[i], sessions[j]));
    }
}

/// A session that had to make room leaves its key, so that the next session under that key starts
/// with a lost cache; the one after that does not, and other keys are not touched.
pub proof fn law_lost_cache_is_reported_once(
    keys: Seq<SessionKeyView>,
    key: SessionKeyView,
    other: SessionKeyView,
)
    ensures
        holds_key(with_key(keys, key), key),
        !holds_key(without_key(keys, key), key),
        !same_key(key, other) ==> holds_key(without_key(keys, key), other) == holds_key(keys, other),
    decreases keys.len(),
{
    if !holds_key(keys, key) {
        assert(same_key(with_key(keys, key)[keys.len() as int], key));
    }
    if keys.len() > 0 {
        let rest = keys.drop_last();
        law_lost_cache_is_reported_once(rest, key, other);
        let before = without_key(rest, key);
        let after = without_key(keys, key);
        if holds_key(after, key) {
            let i = choose|i: int| 0 <= i < after.len() && same_key(#[trigger] after[i], key);
            if i < before.len() {
                assert(same_key(before[i], key));
            }
        }
        if !same_key(key, other) {
            if holds_key(after, other) {
                let i = choose|i: int| 0 <= i < after.len() && same_key(#[trigger] after[i], other);
                if i < before.len() {
                    assert(same_key(before[i], other));
                    let j = choose|j: int|
                        0 <= j < rest.len() && same_key(#[trigger] rest[j], other);
                    assert(same_key(keys[j], other));
                } else {
                    assert(same_key(keys[keys.len() - 1], other));
                }
            }
            if holds_key(keys, other) {
                let j = choose|j: int| 0 <= j < keys.len() && same_key(#[trigger] keys[j], other);
                if j < rest.len() {
                    assert(same_key(rest[j], other));
                    let i = choose|i: int|
                        0 <= i < before.len() && same_key(#[trigger] before[i], other);
                    assert(same_key(after[i], other));
                } else {
                    assert(same_key(after[after.len() - 1], other));
                }
            }
        }
    }
}

/// Once a client has gone and its sessions have been marked, a sweep leaves none of them, whenever
/// it comes.
pub proof fn law_departed_client_leaves_no_session(
    manager: ManagerView,
    owner: Seq<char>,
    now: MomentView,
)
    requires
        is_consistent(manager),
    ensures
        ({
            let left = swept(
                ManagerView { sessions: marked(manager.sessions, owner), ..manager },
                now,
            ).sessions;
            forall|i: int|
                0 <= i < left.len() ==> (#[trigger] left[i]).mcp_session_id != Some(owner)
        }),
{
    let sessions = marked(manager.sessions, owner);
    let count = sessions.len() as int;
    let timeout = manager.idle_timeout_secs;
    lemma_marked(manager.sessions, owner);
    lemma_unswept(sessions, now, timeout, count);
    let left = unswept(sessions, now, timeout, count);
    assert forall|i: int| 0 <= i < left.len() implies (#[trigger] left[i]).mcp_session_id != Some(
        owner,
    ) by {
        let k = choose|k: int|
            0 <= k < count && #[trigger] sessions[k] == left[i] && !is_swept(
                sessions[k],
                now,
                timeout,
            );
        assert(!sessions[k].marked_for_deletion);
    }
}

/// A session that is found for a file is one for that file and configuration, and belongs to the
/// client that asked, unless one of the two has the name that stands for a client without one.
pub proof fn law_sessions_are_not_shared(
    manager: ManagerView,
    file_path: Seq<char>,
    owner: Option<Seq<char>>,
    config: FStarConfigView,
)
    requires
        is_consistent(manager),
        id_under(manager.sessions, key_for(manager.style, file_path, owner, config)) is Some,
    ensures
        ({
            let id = id_under(manager.sessions, key_for(manager.style, file_path, owner, config))->0;
            let found = session_with(manager.sessions, id);
            &&& is_known(manager.sessions, id)
            &&& locations::components(found.style, found.file_path) == locations::components(
                manager.style,
                file_path,
            )
            &&& found.fingerprint == digest::fingerprint_of(config)
            &&& owner_name(found.mcp_session_id) == owner_name(owner)
            &&& owner != Some("stdio"@) && found.mcp_session_id != Some("stdio"@)
                ==> found.mcp_session_id == owner
        }),
{
    let key = key_for(manager.style, file_path, owner, config);
    lemma_place_under(manager.sessions, key);
    let place = place_under(manager.sessions, key) as int;
    let id = manager.sessions[place].id;
    lemma_place_of(manager.sessions, id);
    let at = place_of(manager.sessions, id) as int;
    if at < place {
        assert(coexist(manager.sessions[at], manager.sessions[place]));
    }
}

/// A request for the file, the configuration and the client of a session that is open gives that
/// session, unless another one has been started for the same since.
pub proof fn law_open_session_is_found_again(
    manager: ManagerView,
    place: int,
    file_path: Seq<char>,
    owner: Option<Seq<char>>,
    config: FStarConfigView,
)
    requires
        is_consistent(manager),
        0 <= place < manager.sessions.len(),
        manager.sessions[place].indexed,
        manager.sessions[place].style == manager.style,
        locations::is_same(manager.style, manager.sessions[place].file_path, file_path),
        manager.sessions[place].mcp_session_id == owner,
        manager.sessions[place].fingerprint == digest::fingerprint_of(config),
    ensures
        id_under(manager.sessions, key_for(manager.style, file_path, owner, config)) == Some(
            manager.sessions[place].id,
        ),
{
    let key = key_for(manager.style, file_path, owner, config);
    lemma_place_under(manager.sessions, key);
    let found = place_under(manager.sessions, key) as int;
    if found < place {
        assert(coexist(manager.sessions[found], manager.sessions[place]));
    }
}

/// A request that differs from a session that is open in its file, in the fingerprint of its
/// configuration or in its client, where none of the two clients has the name that stands for one
/// without a name, never gives that session: it gives another one that is open, or a new one beside
/// it, where the identifier of the new one is not in use.
pub proof fn law_different_requests_give_different_sessions(
    manager: ManagerView,
    place: int,
    file_path: Seq<char>,
    owner: Option<Seq<char>>,
    config: FStarConfigView,
    started: SessionView,
)
    requires
        is_consistent(manager),
        0 <= place < manager.sessions.len(),
        manager.sessions[place].style == manager.style,
        started.style == manager.style,
        ({
            let open = manager.sessions[place];
            ||| !locations::is_same(manager.style, open.file_path, file_path)
            ||| open.fingerprint != digest::fingerprint_of(config)
            ||| open.mcp_session_id != owner && open.mcp_session_id != Some("stdio"@) && owner
                != Some("stdio"@)
        }),
        started.file_path == file_path,
        started.mcp_session_id == owner,
        started.config == config,
        moment::is_moment(started.created_at),
        !is_known(manager.sessions, started.id),
    ensures
        ({
            let open = manager.sessions[place];
            let key = key_for(manager.style, file_path, owner, config);
            match id_under(manager.sessions, key) {
                Some(id) => id != open.id,
                None => {
                    let after = with_session(manager.sessions, record_of(started));
                    &&& started.id != open.id
                    &&& id_under(after, key) == Some(started.id)
                    &&& is_known(after, open.id)
                    &&& session_with(after, open.id) == open
                },
            }
        }),
{
    let sessions = manager.sessions;
    let open = sessions[place];
    let key = key_for(manager.style, file_path, owner, config);
    assert(!same_key(key_of(open), key));
    lemma_place_under(sessions, key);
    lemma_place_of(sessions, started.id);
    match id_under(sessions, key) {
        Some(_) => {
            let found = place_under(sessions, key) as int;
            if found < place {
                assert(coexist(sessions[found], sessions[place]));
            } else if place < found {
                assert(coexist(sessions[place], sessions[found]));
            }
        },
        None => {
            law_created_session_is_found(manager, started);
            lemma_with_session(sessions, record_of(started));
            let after = with_session(sessions, record_of(started));
            assert(after[place] == open);
            lemma_place_of(after, open.id);
            let at = place_of(after, open.id) as int;
            if at < place {
                assert(coexist(after[at], after[place]));
            }
        },
    }
}

/// A session is known by its identifier exactly where one has it, and the first one that does is the
/// session with the identifier.
pub proof fn law_sessions_are_known_by_their_identifier(
    sessions: Seq<SessionRecordView>,
    id: Seq<char>,
    at: int,
)
    ensures
        0 <= at < sessions.len() && sessions[at].id == id ==> is_known(sessions, id),
        0 <= at < sessions.len() && sessions[at].id == id && (forall|i: int|
            0 <= i < at ==> (#[trigger] sessions[i]).id != id) ==> session_with(sessions, id)
            == sessions[at],
        (forall|i: int| 0 <= i < sessions.len() ==> (#[trigger] sessions[i]).id != id)
            ==> !is_known(sessions, id),
{
    lemma_place_of(sessions, id);
}

/// A session has timed out after as long as the last note under its identifier says; one without a
/// note has not.
pub proof fn law_the_last_timeout_counts(timeouts: Seq<(Seq<char>, u64)>, id: Seq<char>, at: int)
    ensures
        0 <= at < timeouts.len() && timeouts[at].0 == id && (forall|i: int|
            at < i < timeouts.len() ==> (#[trigger] timeouts[i]).0 != id) ==> timeout_of(
            timeouts,
            id,
        ) == Some(timeouts[at].1),
        (forall|i: int| 0 <= i < timeouts.len() ==> (#[trigger] timeouts[i]).0 != id) ==> timeout_of(
            timeouts,
            id,
        ) is None,
    decreases timeouts.len(),
{
    if timeouts.len() > 0 && timeouts.last().0 != id {
        let rest = timeouts.drop_last();
        assert forall|i: int| 0 <= i < rest.len() implies #[trigger] rest[i] == timeouts[i] by {}
        law_the_last_timeout_counts(rest, id, at);
    } else if timeouts.len() > 0 {
        assert(timeouts[timeouts.len() - 1].0 == id);
    }
}

/// Two requests lead to the same session exactly when they come from the same client, where one
/// without a name counts as the one of the standard input, name the same place and ask for
/// configurations with the same fingerprint.
pub proof fn law_requests_lead_to_the_same_session(
    style: Style,
    file: Seq<char>,
    other_file: Seq<char>,
    client: Option<Seq<char>>,
    other_client: Option<Seq<char>>,
    config: FStarConfigView,
    other_config: FStarConfigView,
)
    ensures
        ({
            let same_client = match (client, other_client) {
                (Some(a), Some(b)) => a == b,
                (Some(a), None) => a == "stdio"@,
                (None, Some(b)) => b == "stdio"@,
                (None, None) => true,
            };
            let same = same_key(
                key_for(style, file, client, config),
                key_for(style, other_file, other_client, other_config),
            );
            same <==> same_client && locations::components(style, file) == locations::components(
                style,
                other_file,
            ) && digest::fingerprint_of(config) == digest::fingerprint_of(other_config)
        }),
{
}

/// A new session is recorded with its identifier, file, client and fingerprint, was last used when it
/// was created, is not marked, and its own request leads to it.
pub proof fn law_new_sessions_are_recorded(session: SessionView)
    ensures
        ({
            let record = record_of(session);
            &&& record.style == session.style
            &&& record.id == session.id
            &&& record.file_path == session.file_path
            &&& record.fingerprint == digest::fingerprint_of(session.config)
            &&& record.created_at == session.created_at
            &&& record.last_activity == session.created_at
            &&& record.mcp_session_id == session.mcp_session_id
            &&& !record.marked_for_deletion
            &&& record.indexed
            &&& key_of(record) == key_for(
                session.style,
                session.file_path,
                session.mcp_session_id,
                session.config,
            )
        }),
{
}

/// Closing a session takes the first one with the identifier out and keeps all others in their
/// order; where no session has the identifier, nothing changes.
pub proof fn law_closing_takes_one_session_out(
    sessions: Seq<SessionRecordView>,
    id: Seq<char>,
    at: int,
)
    ensures
        0 <= at < sessions.len() && sessions[at].id == id && (forall|i: int|
            0 <= i < at ==> (#[trigger] sessions[i]).id != id) ==> closed(sessions, id)
            == sessions.take(at) + sessions.skip(at + 1),
        (forall|i: int| 0 <= i < sessions.len() ==> (#[trigger] sessions[i]).id != id) ==> closed(
            sessions,
            id,
        ) == sessions,
{
    lemma_place_of(sessions, id);
    if 0 <= at < sessions.len() && sessions[at].id == id && (forall|i: int|
        0 <= i < at ==> (#[trigger] sessions[i]).id != id) {
        assert(place_of(sessions, id) == at);
        assert(closed(sessions, id) =~= sessions.take(at) + sessions.skip(at + 1));
    }
}

/// A key leads to the first session with the same client, place and fingerprint to which keys lead;
/// where there is none, it leads to none.
pub proof fn law_keys_lead_to_the_first_session(
    sessions: Seq<SessionRecordView>,
    key: SessionKeyView,
    at: int,
)
    ensures
        0 <= at < sessions.len() && sessions[at].indexed && key_of(sessions[at]) == key && (forall|
            i: int,
        |
            0 <= i < at ==> !(#[trigger] sessions[i]).indexed || key_of(sessions[i]) != key)
            ==> id_under(sessions, key) == Some(sessions[at].id),
        (forall|i: int|
            0 <= i < sessions.len() ==> !(#[trigger] sessions[i]).indexed || key_of(sessions[i])
                != key) ==> id_under(sessions, key) is None,
{
    lemma_place_under(sessions, key);
    let place = place_under(sessions, key) as int;
    if place < sessions.len() {
        assert(key_of(sessions[place]) == key);
    }
    if 0 <= at < sessions.len() && sessions[at].indexed && key_of(sessions[at]) == key {
        assert(same_key(key_of(sessions[at]), key));
    }
}

/// A new session stands behind all others, which stay as they are but for this: no key leads any
/// longer to those with the key of the new one.
pub proof fn law_new_sessions_stand_last(
    sessions: Seq<SessionRecordView>,
    record: SessionRecordView,
    at: int,
)
    requires
        forall|i: int| 0 <= i < sessions.len() ==> (#[trigger] sessions[i]).id != record.id,
    ensures
        with_session(sessions, record).len() == sessions.len() + 1,
        with_session(sessions, record)[sessions.len() as int] == record,
        0 <= at < sessions.len() && key_of(sessions[at]) != key_of(record) ==> with_session(
            sessions,
            record,
        )[at] == sessions[at],
        0 <= at < sessions.len() && key_of(sessions[at]) == key_of(record) ==> with_session(
            sessions,
            record,
        )[at] == (SessionRecordView { indexed: false, ..sessions[at] }),
{
    lemma_place_of(sessions, record.id);
    assert(!is_known(sessions, record.id));
}

/// Keys are remembered once: a list that holds a key stays as it is, and another one gets it at its
/// end. A key is held exactly when it is among the keys.
pub proof fn law_keys_are_remembered_once(keys: Seq<SessionKeyView>, key: SessionKeyView)
    ensures
        holds_key(keys, key) <==> keys.contains(key),
        keys.contains(key) ==> with_key(keys, key) == keys,
        !keys.contains(key) ==> with_key(keys, key) == keys.push(key),
{
    if holds_key(keys, key) {
        let i = choose|i: int| 0 <= i < keys.len() && same_key(#[trigger] keys[i], key);
        assert(keys[i] == key);
    }
    if keys.contains(key) {
        let i = keys.index_of(key);
        assert(same_key(keys[i], key));
    }
}

/// Forgetting a key takes every copy of it out and keeps the other keys in their order.
pub proof fn law_forgotten_keys_are_gone(
    keys: Seq<SessionKeyView>,
    key: SessionKeyView,
    next: SessionKeyView,
)
    ensures
        without_key(Seq::empty(), key).len() == 0,
        next == key ==> without_key(keys.push(next), key) == without_key(keys, key),
        next != key ==> without_key(keys.push(next), key) == without_key(keys, key).push(next),
{
    assert(keys.push(next).drop_last() =~= keys);
}

/// Where there is room, or every session is busy, no session goes. Where there is none, the first
/// one of those that are not busy and were used longest ago goes, its key is remembered, and the
/// same is done with the rest.
pub proof fn law_room_is_made_one_by_one(manager: ManagerView, busy: Seq<Seq<char>>, at: int)
    ensures
        manager.sessions.len() < manager.max_sessions ==> made_room(manager, busy) == (
            manager,
            Seq::<Seq<char>>::empty(),
        ),
        (forall|i: int|
            0 <= i < manager.sessions.len() ==> busy.contains((#[trigger] manager.sessions[i]).id))
            ==> made_room(manager, busy) == (manager, Seq::<Seq<char>>::empty()),
        manager.sessions.len() >= manager.max_sessions && is_first_to_go(manager, busy, at) ==> ({
            let rest = made_room(
                ManagerView {
                    sessions: manager.sessions.take(at) + manager.sessions.skip(at + 1),
                    evicted: with_key(manager.evicted, key_of(manager.sessions[at])),
                    ..manager
                },
                busy,
            );
            made_room(manager, busy) == (rest.0, seq![manager.sessions[at].id] + rest.1)
        }),
{
    let count = manager.sessions.len() as int;
    lemma_least_recent(manager.sessions, busy, count);
    if is_first_to_go(manager, busy, at) {
        lemma_least_recent_is_first(manager.sessions, busy, count);
        let place = least_recent(manager.sessions, busy, count);
        assert(manager.sessions[place].id == manager.sessions[place].id);
        assert(place == at);
        assert(manager.sessions.remove(at) =~= manager.sessions.take(at) + manager.sessions.skip(
            at + 1,
        ));
    }
}

/// True for the first one of the sessions that are not busy and were used longest ago.
pub open spec fn is_first_to_go(manager: ManagerView, busy: Seq<Seq<char>>, at: int) -> bool {
    &&& 0 <= at < manager.sessions.len()
    &&& !busy.contains(manager.sessions[at].id)
    &&& forall|i: int|
        0 <= i < manager.sessions.len() && !busy.contains((#[trigger] manager.sessions[i]).id)
            ==> moment::nanos_of(manager.sessions[at].last_activity) <= moment::nanos_of(
            manager.sessions[i].last_activity,
        ) && (i < at ==> moment::nanos_of(manager.sessions[at].last_activity) < moment::nanos_of(
            manager.sessions[i].last_activity,
        ))
}

/// Of those used longest ago `least_recent` gives the first one.
proof fn lemma_least_recent_is_first(
    sessions: Seq<SessionRecordView>,
    busy: Seq<Seq<char>>,
    count: int,
)
    requires
        0 <= count <= sessions.len(),
    ensures
        forall|i: int|
            0 <= i < least_recent(sessions, busy, count) && !busy.contains(
                (#[trigger] sessions[i]).id,
            ) ==> moment::nanos_of(sessions[least_recent(sessions, busy, count)].last_activity)
                < moment::nanos_of(sessions[i].last_activity),
    decreases count,
{
    if count > 0 {
        lemma_least_recent_is_first(sessions, busy, count - 1);
        lemma_least_recent(sessions, busy, count - 1);
    }
}

/// A sweep goes through the sessions one by one. One that is marked goes; one of no client that has
/// been idle for as long as is allowed goes too and leaves its key; each that goes is named, and all
/// others stay in their order.
pub proof fn law_sweeps_go_session_by_session(
    keys: Seq<SessionKeyView>,
    sessions: Seq<SessionRecordView>,
    next: SessionRecordView,
    now: MomentView,
    timeout: u64,
)
    ensures
        ({
            let count = sessions.len() as int;
            let all = sessions.push(next);
            let idle = next.mcp_session_id is None && (timeout == 0 || moment::seconds_between(
                next.last_activity,
                now,
            ) >= timeout);
            let (left, ids, left_keys) = (
                unswept(sessions, now, timeout, count),
                swept_ids(sessions, now, timeout, count),
                keys_after_sweep(keys, sessions, now, timeout, count),
            );
            let (left_then, ids_then, keys_then) = (
                unswept(all, now, timeout, count + 1),
                swept_ids(all, now, timeout, count + 1),
                keys_after_sweep(keys, all, now, timeout, count + 1),
            );
            &&& next.marked_for_deletion ==> left_then == left && ids_then == ids.push(next.id)
                && keys_then == left_keys
            &&& !next.marked_for_deletion && idle ==> left_then == left && ids_then == ids.push(
                next.id,
            ) && keys_then == with_key(left_keys, key_of(next))
            &&& !next.marked_for_deletion && !idle ==> left_then == left.push(next) && ids_then
                == ids && keys_then == left_keys
        }),
        unswept(Seq::empty(), now, timeout, 0).len() == 0,
        swept_ids(Seq::empty(), now, timeout, 0).len() == 0,
        keys_after_sweep(keys, Seq::empty(), now, timeout, 0) == keys,
{
    lemma_sweep_of_start(keys, sessions, next, now, timeout, sessions.len() as int);
}

/// What a sweep does with the first sessions does not depend on the others.
proof fn lemma_sweep_of_start(
    keys: Seq<SessionKeyView>,
    sessions: Seq<SessionRecordView>,
    next: SessionRecordView,
    now: MomentView,
    timeout: u64,
    count: int,
)
    requires
        0 <= count <= sessions.len(),
    ensures
        unswept(sessions.push(next), now, timeout, count) == unswept(sessions, now, timeout, count),
        swept_ids(sessions.push(next), now, timeout, count) == swept_ids(
            sessions,
            now,
            timeout,
            count,
        ),
        keys_after_sweep(keys, sessions.push(next), now, timeout, count) == keys_after_sweep(
            keys,
            sessions,
            now,
            timeout,
            count,
        ),
    decreases count,
{
    if count > 0 {
        lemma_sweep_of_start(keys, sessions, next, now, timeout, count - 1);
    }
}

/// A sweep touches nothing but the sessions and the keys that are remembered.
pub proof fn law_sweeps_keep_the_rest(manager: ManagerView, now: MomentView)
    ensures
        ({
            let after = swept(manager, now);
            let count = manager.sessions.len() as int;
            let timeout = manager.idle_timeout_secs;
            &&& after.sessions == unswept(manager.sessions, now, timeout, count)
            &&& after.evicted == keys_after_sweep(
                manager.evicted,
                manager.sessions,
                now,
                timeout,
                count,
            )
            &&& after.timed_out == manager.timed_out
            &&& after.max_sessions == manager.max_sessions
            &&& after.idle_timeout_secs == manager.idle_timeout_secs
            &&& after.style == manager.style
        }),
{
}

/// A client is told of its sessions in their order: of each that is its own and not marked, its
/// identifier, file, times and client, and for how many seconds it has been idle.
pub proof fn law_sessions_are_listed_in_order(
    sessions: Seq<SessionRecordView>,
    next: SessionRecordView,
    owner: Option<Seq<char>>,
    now: MomentView,
)
    ensures
        ({
            let count = sessions.len() as int;
            let before = listed(sessions, owner, now, count);
            let after = listed(sessions.push(next), owner, now, count + 1);
            let told = SessionInfoView {
                session_id: next.id,
                file_path: next.file_path,
                created_at: next.created_at.text,
                last_activity: next.last_activity.text,
                idle_seconds: moment::seconds_between(next.last_activity, now),
                mcp_session_id: next.mcp_session_id,
                marked_for_deletion: next.marked_for_deletion,
            };
            &&& next.mcp_session_id == owner && !next.marked_for_deletion ==> after == before.push(
                told,
            )
            &&& next.mcp_session_id != owner || next.marked_for_deletion ==> after == before
        }),
        listed(Seq::empty(), owner, now, 0).len() == 0,
{
    lemma_listed_of_start(sessions, next, owner, now, sessions.len() as int);
}

/// What is listed of the first sessions does not depend on the others.
proof fn lemma_listed_of_start(
    sessions: Seq<SessionRecordView>,
    next: SessionRecordView,
    owner: Option<Seq<char>>,
    now: MomentView,
    count: int,
)
    requires
        0 <= count <= sessions.len(),
    ensures
        listed(sessions.push(next), owner, now, count) == listed(sessions, owner, now, count),
    decreases count,
{
    if count > 0 {
        lemma_listed_of_start(sessions, next, owner, now, count - 1);
    }
}

/// A client that has gone has all of its sessions marked, and no other session is touched.
pub proof fn law_sessions_of_the_client_are_marked(
    sessions: Seq<SessionRecordView>,
    owner: Seq<char>,
    at: int,
)
    requires
        0 <= at < sessions.len(),
    ensures
        marked(sessions, owner).len() == sessions.len(),
        sessions[at].mcp_session_id == Some(owner) ==> marked(sessions, owner)[at] == (
        SessionRecordView { marked_for_deletion: true, ..sessions[at] }),
        sessions[at].mcp_session_id != Some(owner) ==> marked(sessions, owner)[at] == sessions[at],
        ids_of(sessions).len() == sessions.len(),
        ids_of(sessions)[at] == sessions[at].id,
{
}

/// A setting that is a number within its range counts; without one, and with anything else, the
/// default does. At least one session is allowed, whatever the setting says, and four are without
/// one.
pub proof fn law_settings_count_where_they_are_numbers(
    number: nat,
    max: nat,
    default: nat,
    other: Seq<char>,
)
    ensures
        number <= max ==> setting_or(Some(text::decimal_of(number)), max, default) == number,
        number > max ==> setting_or(Some(text::decimal_of(number)), max, default) == default,
        setting_or(None, max, default) == default,
        setting_or(Some(Seq::empty()), max, default) == default,
        (exists|i: int| 0 < i < other.len() && !('0' <= #[trigger] other[i] <= '9')) ==> setting_or(
            Some(other),
            max,
            default,
        ) == default,
        0 < number <= usize::MAX ==> session_limit(Some(text::decimal_of(number))) == number,
        session_limit(Some(text::decimal_of(0))) == 1,
        session_limit(None) == 4,
{
    text::law_numbers_are_read_back(number, max, other);
    text::law_numbers_are_read_back(number, max, Seq::empty());
    text::law_numbers_are_read_back(number, usize::MAX as nat, other);
    text::law_numbers_are_read_back(0, usize::MAX as nat, other);
}

/// A session is given to the client that it belongs to and to no other; one that is not there is
/// not found.
pub proof fn law_sessions_are_given_to_their_client(
    manager: &SessionManager,
    id: &str,
    client: Option<&str>,
    at: int,
    result: Result<&SessionRecord, SessionError>,
)
    requires
        call_ensures(SessionManager::get_owned, (manager, id, client), result),
        is_consistent(manager@),
        0 <= at < manager@.sessions.len() ==> manager@.sessions[at].id == id@,
        !(0 <= at < manager@.sessions.len()) ==> forall|i: int|
            0 <= i < manager@.sessions.len() ==> (#[trigger] manager@.sessions[i]).id != id@,
    ensures
        match result {
            Ok(record) => 0 <= at < manager@.sessions.len() && record@ == manager@.sessions[at]
                && record@.mcp_session_id == text::opt_str_text(client),
            Err(error) => if 0 <= at < manager@.sessions.len() {
                error@ == (SessionErrorView::NotOwned { session_id: id@ })
                    && manager@.sessions[at].mcp_session_id != text::opt_str_text(client)
            } else {
                error@ == SessionErrorView::NotFound(id@)
            },
        },
{
    lemma_only_one_has_the_identifier(manager@.sessions, id@, at);
}

/// In consistent sessions only one has an identifier.
proof fn lemma_only_one_has_the_identifier(
    sessions: Seq<SessionRecordView>,
    id: Seq<char>,
    at: int,
)
    requires
        well_kept(sessions),
        0 <= at < sessions.len() ==> sessions[at].id == id,
        !(0 <= at < sessions.len()) ==> forall|i: int|
            0 <= i < sessions.len() ==> (#[trigger] sessions[i]).id != id,
    ensures
        0 <= at < sessions.len() ==> place_of(sessions, id) == at,
        !(0 <= at < sessions.len()) ==> !is_known(sessions, id),
{
    lemma_place_of(sessions, id);
    if 0 <= at < sessions.len() {
        let place = place_of(sessions, id) as int;
        if place < at {
            assert(coexist(sessions[place], sessions[at]));
        }
    }
}

/// A session is closed for the client that it belongs to, or by force, and then it alone is gone;
/// for any other client nothing changes.
pub proof fn law_sessions_are_closed_by_their_client(
    manager: &mut SessionManager,
    id: &str,
    client: Option<&str>,
    force: bool,
    at: int,
    result: Result<(), SessionError>,
)
    requires
        call_ensures(SessionManager::close_session, (manager, id, client, force), result),
        is_consistent(old(manager)@),
        0 <= at < old(manager)@.sessions.len() ==> old(manager)@.sessions[at].id == id@,
        !(0 <= at < old(manager)@.sessions.len()) ==> forall|i: int|
            0 <= i < old(manager)@.sessions.len() ==> (#[trigger] old(manager)@.sessions[i]).id
                != id@,
    ensures
        result is Ok <==> 0 <= at < old(manager)@.sessions.len() && (force
            || old(manager)@.sessions[at].mcp_session_id == text::opt_str_text(client)),
        result is Ok ==> final(manager)@.sessions == old(manager)@.sessions.take(at)
            + old(manager)@.sessions.skip(at + 1),
        result is Err ==> final(manager)@ == old(manager)@,
        result matches Err(error) ==> error@ == if 0 <= at < old(manager)@.sessions.len() {
            SessionErrorView::NotOwned { session_id: id@ }
        } else {
            SessionErrorView::NotFound(id@)
        },
{
    let sessions = old(manager)@.sessions;
    lemma_only_one_has_the_identifier(sessions, id@, at);
    if 0 <= at < sessions.len() {
        assert(sessions.remove(at) =~= sessions.take(at) + sessions.skip(at + 1));
    }
}

/// A session that is used was last used now, and nothing else of it or of another one changes.
pub proof fn law_used_sessions_are_recent(
    manager: &mut SessionManager,
    id: &str,
    now: &Moment,
    at: int,
)
    requires
        call_ensures(SessionManager::touch, (manager, id, now), ()),
        is_consistent(old(manager)@),
        0 <= at < old(manager)@.sessions.len() ==> old(manager)@.sessions[at].id == id@,
        !(0 <= at < old(manager)@.sessions.len()) ==> forall|i: int|
            0 <= i < old(manager)@.sessions.len() ==> (#[trigger] old(manager)@.sessions[i]).id
                != id@,
    ensures
        0 <= at < old(manager)@.sessions.len() ==> final(manager)@.sessions
            == old(manager)@.sessions.update(
            at,
            SessionRecordView { last_activity: now@, ..old(manager)@.sessions[at] },
        ),
        !(0 <= at < old(manager)@.sessions.len()) ==> final(manager)@ == old(manager)@,
        final(manager)@.timed_out == old(manager)@.timed_out,
        final(manager)@.evicted == old(manager)@.evicted,
{
    lemma_only_one_has_the_identifier(old(manager)@.sessions, id@, at);
}

/// A session whose time is over is gone, and it is known after how long; one that was closed before
/// leaves no note.
pub proof fn law_expired_sessions_leave_a_note(
    manager: &mut SessionManager,
    id: &str,
    seconds: u64,
    at: int,
    ended: bool,
)
    requires
        call_ensures(SessionManager::expire, (manager, id, seconds), ended),
        is_consistent(old(manager)@),
        0 <= at < old(manager)@.sessions.len() ==> old(manager)@.sessions[at].id == id@,
        !(0 <= at < old(manager)@.sessions.len()) ==> forall|i: int|
            0 <= i < old(manager)@.sessions.len() ==> (#[trigger] old(manager)@.sessions[i]).id
                != id@,
    ensures
        ended <==> 0 <= at < old(manager)@.sessions.len(),
        ended ==> final(manager)@.sessions == old(manager)@.sessions.take(at)
            + old(manager)@.sessions.skip(at + 1),
        ended ==> timeout_of(final(manager)@.timed_out, id@) == Some(seconds),
        !ended ==> final(manager)@ == old(manager)@,
{
    let sessions = old(manager)@.sessions;
    lemma_only_one_has_the_identifier(sessions, id@, at);
    if 0 <= at < sessions.len() {
        assert(sessions.remove(at) =~= sessions.take(at) + sessions.skip(at + 1));
    }
}

/// A request is answered with the session to which its key leads, and nothing changes then; where
/// there is none, room is made for a new one, and the cache is lost exactly where its key was
/// remembered, which it is no longer.
pub proof fn law_requests_use_open_sessions(
    manager: &mut SessionManager,
    file_path: &str,
    config: &FStarConfig,
    client: Option<&str>,
    busy: &Vec<String>,
    creation: Creation,
)
    requires
        call_ensures(
            SessionManager::create_session,
            (manager, file_path, config, client, busy),
            creation,
        ),
    ensures
        ({
            let key = key_for(
                old(manager)@.style,
                file_path@,
                text::opt_str_text(client),
                config@,
            );
            let open = id_under(old(manager)@.sessions, key);
            let (roomy, gone) = made_room(old(manager)@, text::texts(busy@));
            match creation {
                Creation::Existing { id } => open == Some(id@) && final(manager)@ == old(manager)@,
                Creation::Start { closed, cache_lost } => {
                    &&& open is None
                    &&& text::texts(closed@) == gone
                    &&& cache_lost <==> roomy.evicted.contains(key)
                    &&& !final(manager)@.evicted.contains(key)
                    &&& final(manager)@.sessions == roomy.sessions
                },
            }
        }),
{
    let key = key_for(old(manager)@.style, file_path@, text::opt_str_text(client), config@);
    let roomy = made_room(old(manager)@, text::texts(busy@)).0;
    law_keys_are_remembered_once(roomy.evicted, key);
    law_keys_are_remembered_once(without_key(roomy.evicted, key), key);
    law_lost_cache_is_reported_once(roomy.evicted, key, key);
}

/// A server without settings starts with no sessions, allows four of them, and sweeps those of no
/// client after half an hour.
pub proof fn law_servers_start_with_their_defaults(style: Style, manager: SessionManager)
    requires
        call_ensures(SessionManager::new, (style, None::<&str>, None::<&str>), manager),
    ensures
        manager@.sessions.len() == 0,
        manager@.timed_out.len() == 0,
        manager@.evicted.len() == 0,
        manager@.max_sessions == 4,
        manager@.idle_timeout_secs == 1800,
        manager@.style == style,
        is_consistent(manager@),
{
}

} // verus!
