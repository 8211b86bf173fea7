//! Points in time.
use crate::text;
use vstd::prelude::*;

verus! {

/// The last second that the calendar reaches.
pub const LAST_SECOND: i64 = 8_210_266_876_799;

/// How many nanoseconds a second has.
pub const NANOS_PER_SECOND: u32 = 1_000_000_000;

/// A point in time: seconds and nanoseconds since the start of 1970, and its text.
#[derive(Debug)]
pub struct Moment {
    pub seconds: i64,
    pub nanos: u32,
    pub text: String,
}

/// The model of a point in time.
pub struct MomentView {
    pub seconds: i64,
    pub nanos: u32,
    pub text: Seq<char>,
}

impl View for Moment {
    type V = MomentView;

    open spec fn view(&self) -> MomentView {
        MomentView { seconds: self.seconds, nanos: self.nanos, text: self.text@ }
    }
}

/// True for the points in time that the clock can show.
pub open spec fn is_moment(moment: MomentView) -> bool {
    0 <= moment.seconds <= LAST_SECOND && moment.nanos < NANOS_PER_SECOND
}

/// The nanoseconds since the start of 1970.
pub open spec fn nanos_of(moment: MomentView) -> int {
    moment.seconds * NANOS_PER_SECOND + moment.nanos
}

/// The text of a point in time as RFC 3339 writes it, where the calendar reaches it.
pub uninterp spec fn rfc3339_text(seconds: i64, nanos: u32) -> Option<Seq<char>>;

/// Calls `chrono::Utc::now` and hands on the seconds and nanoseconds of what it returns. It takes
/// them from the system's clock, and panics where that stands before 1970 or beyond the calendar.
#[verifier::external_body]
fn read_clock() -> (reading: (i64, u32))
    ensures
        0 <= reading.0 <= LAST_SECOND,
        reading.1 < NANOS_PER_SECOND,
{
    let now = chrono::Utc::now();
    (now.timestamp(), now.timestamp_subsec_nanos())
}

/// Calls `chrono::DateTime::from_timestamp` and `to_rfc3339` on what it returns. The text depends
/// on the two numbers alone, and there is one for every second from 1970 to the last one.
#[verifier::external_body]
fn format_moment(seconds: i64, nanos: u32) -> (shown: Option<String>)
    ensures
        text::opt_text(shown) == rfc3339_text(seconds, nanos),
        0 <= seconds <= LAST_SECOND && nanos < NANOS_PER_SECOND ==> shown is Some,
{
    match chrono::DateTime::from_timestamp(seconds, nanos) {
        Some(moment) => Some(moment.to_rfc3339()),
        None => None,
    }
}

/// The number of whole seconds from one point in time to another, rounded towards zero.
pub open spec fn seconds_between(earlier: MomentView, later: MomentView) -> int {
    let nanos = nanos_of(later) - nanos_of(earlier);
    if nanos >= 0 {
        nanos / (NANOS_PER_SECOND as int)
    } else {
        -((-nanos) / (NANOS_PER_SECOND as int))
    }
}

impl Moment {
    /// The point in time with the two numbers, where the calendar reaches it.
    pub fn at(seconds: i64, nanos: u32) -> (moment: Option<Moment>)
        ensures
            match moment {
                Some(found) => found.seconds == seconds && found.nanos == nanos && rfc3339_text(
                    seconds,
                    nanos,
                ) == Some(found.text@),
                None => rfc3339_text(seconds, nanos) is None,
            },
            0 <= seconds <= LAST_SECOND && nanos < NANOS_PER_SECOND ==> moment is Some,
    {
        match format_moment(seconds, nanos) {
            Some(text) => Some(Moment { seconds, nanos, text }),
            None => None,
        }
    }

    /// The point in time that the clock shows.
    pub fn now() -> (moment: Moment)
        ensures
            is_moment(moment@),
            rfc3339_text(moment.seconds, moment.nanos) == Some(moment.text@),
    {
        let (seconds, nanos) = read_clock();
        match Moment::at(seconds, nanos) {
            Some(moment) => moment,
            None => Moment { seconds: 0, nanos: 0, text: String::new() },
        }
    }

    /// A copy of the point in time.
    pub fn copy(&self) -> (copy: Moment)
        ensures
            copy@ == self@,
    {
        Moment { seconds: self.seconds, nanos: self.nanos, text: self.text.clone() }
    }

    /// True when this point in time is before the other.
    pub fn is_before(&self, other: &Moment) -> (before: bool)
        requires
            is_moment(self@),
            is_moment(other@),
        ensures
            before == (nanos_of(self@) < nanos_of(other@)),
    {
        self.seconds < other.seconds || (self.seconds == other.seconds && self.nanos < other.nanos)
    }

    /// The number of whole seconds from this point in time to another, rounded towards zero.
    pub fn seconds_until(&self, later: &Moment) -> (seconds: i64)
        requires
            is_moment(self@),
            is_moment(later@),
        ensures
            seconds == seconds_between(self@, later@),
    {
        let difference: i64 = later.seconds - self.seconds;
        if difference > 0 && later.nanos < self.nanos {
            difference - 1
        } else if difference < 0 && later.nanos > self.nanos {
            difference + 1
        } else {
            difference
        }
    }
}

/// The seconds between two points in time are whole ones: what is left is less than a second, and
/// they count backwards where the second point is the earlier one.
pub proof fn law_whole_seconds_are_counted(earlier: MomentView, later: MomentView)
    ensures
        ({
            let nanos = (later.seconds - earlier.seconds) * 1_000_000_000 + later.nanos
                - earlier.nanos;
            let seconds = seconds_between(earlier, later);
            &&& nanos >= 0 ==> seconds * 1_000_000_000 <= nanos < (seconds + 1) * 1_000_000_000
            &&& nanos < 0 ==> (seconds - 1) * 1_000_000_000 < nanos <= seconds * 1_000_000_000
            &&& nanos_of(later) - nanos_of(earlier) == nanos
        }),
{
    assert(nanos_of(later) - nanos_of(earlier) == (later.seconds - earlier.seconds) * 1_000_000_000
        + later.nanos - earlier.nanos);
}

} // verus!
