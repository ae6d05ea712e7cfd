//! Points in time and the spans between them.
use vstd::prelude::*;

use crate::text::decimal;
use crate::text::decimal_text;

verus! {

/// Nanoseconds in a second.
pub const NANOS: i128 = 1_000_000_000;

/// The first second of the calendar, counted from 1970.
pub const CALENDAR_FIRST: i64 = -8_334_601_228_800;

/// The last second of the calendar, counted from 1970.
pub const CALENDAR_LAST: i64 = 8_210_266_876_799;

/// A point in time in UTC: whole seconds since 1970 and the nanoseconds past
/// that second. A leap second is the second before it with more than a
/// thousand million nanoseconds.
#[derive(Clone, Copy, Debug, PartialEq, Eq, Structural)]
pub struct Timestamp {
    pub seconds: i64,
    pub nanos: u32,
}

impl Timestamp {
    /// Nanoseconds since 1970.
    pub open spec fn total(self) -> int {
        self.seconds * NANOS + self.nanos
    }

    /// A time on the calendar that lies in no leap second.
    pub open spec fn ordinary(self) -> bool {
        &&& CALENDAR_FIRST <= self.seconds <= CALENDAR_LAST
        &&& self.nanos < NANOS
    }

    /// A time far enough from both ends of the calendar that any span of
    /// nanoseconds can be taken off it.
    pub open spec fn roomy(self) -> bool {
        &&& CALENDAR_FIRST + 9_300_000_000 <= self.seconds <= CALENDAR_LAST - 9_300_000_000
        &&& self.nanos < NANOS || (self.nanos < 2 * NANOS && self.seconds % 60 == 59)
    }

    /// This time is the other or comes before it.
    pub open spec fn le(self, other: Timestamp) -> bool {
        self.seconds < other.seconds || (self.seconds == other.seconds && self.nanos
            <= other.nanos)
    }

    /// The earlier of two times.
    pub open spec fn earliest(self, other: Timestamp) -> Timestamp {
        if other.le(self) {
            other
        } else {
            self
        }
    }

    /// The later of two times.
    pub open spec fn latest(self, other: Timestamp) -> Timestamp {
        if self.le(other) {
            other
        } else {
            self
        }
    }

    /// Whether this time is the other or comes before it.
    pub fn not_after(self, other: Timestamp) -> (r: bool)
        ensures
            r == self.le(other),
    {
        self.seconds < other.seconds || (self.seconds == other.seconds && self.nanos
            <= other.nanos)
    }

    /// The earlier of the two times.
    pub fn min(self, other: Timestamp) -> (r: Timestamp)
        ensures
            r == self.earliest(other),
    {
        if other.not_after(self) {
            other
        } else {
            self
        }
    }

    /// The later of the two times.
    pub fn max(self, other: Timestamp) -> (r: Timestamp)
        ensures
            r == self.latest(other),
    {
        if self.not_after(other) {
            other
        } else {
            self
        }
    }
}

/// Times stand in the order of the nanoseconds they count, seconds first.
pub proof fn law_times_are_ordered_as_they_pass(a: Timestamp, b: Timestamp, c: Timestamp)
    ensures
        a.le(b) || b.le(a),
        a.le(b) && b.le(a) ==> a == b,
        a.le(b) && b.le(c) ==> a.le(c),
        a.seconds < b.seconds ==> a.le(b) && !b.le(a),
        a.seconds == b.seconds ==> (a.le(b) <==> a.nanos <= b.nanos),
        a.nanos < 1_000_000_000 && b.nanos < 1_000_000_000 ==> (a.le(b) <==> a.seconds
            * 1_000_000_000 + a.nanos <= b.seconds * 1_000_000_000 + b.nanos),
{
}

/// The earlier and the later of two times are the two times, and lie on either
/// side of both.
pub proof fn law_the_earlier_and_the_later(a: Timestamp, b: Timestamp)
    ensures
        a.earliest(b) == a || a.earliest(b) == b,
        a.earliest(b).le(a) && a.earliest(b).le(b),
        a.latest(b) == a || a.latest(b) == b,
        a.le(a.latest(b)) && b.le(a.latest(b)),
        a.earliest(b) == b.earliest(a) && a.latest(b) == b.latest(a),
{
}

/// An ordinary time is one from the first second of the calendar to the last
/// that counts less than a second past its own; a roomy one lies 9.3 thousand
/// million seconds from either end, and may be a leap second, which only the
/// last second of a minute has.
pub proof fn law_which_times_are_ordinary(at: Timestamp)
    ensures
        at.ordinary() <==> -8_334_601_228_800 <= at.seconds < 8_210_266_876_800 && at.nanos
            < 1_000_000_000,
        at.roomy() <==> -8_325_301_228_800 <= at.seconds < 8_200_966_876_800 && (at.nanos
            < 1_000_000_000 || (at.nanos < 2_000_000_000 && at.seconds % 60 == 59)),
        at.roomy() && at.nanos < 1_000_000_000 ==> at.ordinary(),
        at.total() == at.seconds * 1_000_000_000 + at.nanos,
{
}

/// The nanoseconds that passed between two times. A leap second between their
/// times of day counts.
pub open spec fn elapsed(now: Timestamp, then: Timestamp) -> int {
    let apart = now.total() - then.total();
    let clock_now = now.seconds as int % 86400;
    let clock_then = then.seconds as int % 86400;
    if clock_now > clock_then && then.nanos >= NANOS {
        apart + NANOS
    } else if clock_now < clock_then && now.nanos >= NANOS {
        apart - NANOS
    } else {
        apart
    }
}

/// Outside leap seconds the time that passed is the plain difference: what is
/// so many seconds and nanoseconds later lies that far ahead. Counted the other
/// way round it is the opposite, and no time passes between a time and itself.
pub proof fn law_elapsed_time_is_the_difference(now: Timestamp, then: Timestamp)
    ensures
        now.nanos < 1_000_000_000 && then.nanos < 1_000_000_000 ==> elapsed(now, then) == (
        now.seconds - then.seconds) * 1_000_000_000 + (now.nanos - then.nanos),
        elapsed(now, then) == -elapsed(then, now),
        elapsed(now, now) == 0,
{
}

/// From inside a leap second to a later time of day, the leap second itself has
/// passed as well; to a time of day that is no later, the plain difference has.
pub proof fn law_a_leap_second_counts(now: Timestamp, then: Timestamp)
    requires
        then.nanos >= 1_000_000_000,
        now.nanos < 1_000_000_000,
    ensures
        now.seconds as int % 86400 > then.seconds as int % 86400 ==> elapsed(now, then) == (
        now.seconds - then.seconds + 1) * 1_000_000_000 + (now.nanos - then.nanos),
        now.seconds as int % 86400 <= then.seconds as int % 86400 ==> elapsed(now, then) == (
        now.seconds - then.seconds) * 1_000_000_000 + (now.nanos - then.nanos),
{
}

fn clock(seconds: i64) -> (r: i64)
    ensures
        r == seconds as int % 86400,
{
    let r: i64 = seconds % 86400;
    if r < 0 {
        r + 86400
    } else {
        r
    }
}

/// The nanoseconds that passed between two times.
pub fn elapsed_nanos(now: Timestamp, then: Timestamp) -> (r: i128)
    ensures
        r == elapsed(now, then),
{
    let apart: i128 = (now.seconds as i128 - then.seconds as i128) * NANOS + (now.nanos as i128
        - then.nanos as i128);
    let clock_now: i64 = clock(now.seconds);
    let clock_then: i64 = clock(then.seconds);
    if clock_now > clock_then && then.nanos >= 1_000_000_000 {
        apart + NANOS
    } else if clock_now < clock_then && now.nanos >= 1_000_000_000 {
        apart - NANOS
    } else {
        apart
    }
}

/// The whole seconds in a span of nanoseconds, rounded toward zero.
pub open spec fn whole_seconds(nanos: int) -> int {
    if nanos < 0 {
        -((-nanos) / (NANOS as int))
    } else {
        nanos / (NANOS as int)
    }
}

/// A span the way a list shows it: its two largest units, or the days alone
/// once there are ten of them. A span below zero shows the seconds past its
/// last whole minute.
pub open spec fn pretty(nanos: int) -> Seq<char> {
    let total = whole_seconds(nanos);
    let seconds = total % 60;
    let minutes = (total / 60) % 60;
    let hours = (total / 3600) % 24;
    let days = total / 86400;
    if total < 0 {
        decimal(-((-total) % 60)) + "s"@
    } else if days > 9 {
        decimal(days) + "d"@
    } else if days > 0 {
        decimal(days) + "d "@ + decimal(hours) + "h"@
    } else if hours > 0 {
        decimal(hours) + "h "@ + decimal(minutes) + "m"@
    } else if minutes > 0 {
        decimal(minutes) + "m "@ + decimal(seconds) + "s"@
    } else {
        decimal(seconds) + "s"@
    }
}

/// A span of so many days, hours, minutes and seconds is shown by its two
/// largest units, and by the days alone from ten days on. What is left of a
/// second does not show.
pub proof fn law_a_span_shows_its_two_largest_units(
    days: int,
    hours: int,
    minutes: int,
    seconds: int,
    rest: int,
)
    requires
        0 <= days,
        0 <= hours < 24,
        0 <= minutes < 60,
        0 <= seconds < 60,
        0 <= rest < 1_000_000_000,
    ensures
        ({
            let span = (((days * 24 + hours) * 60 + minutes) * 60 + seconds) * 1_000_000_000 + rest;
            &&& days >= 10 ==> pretty(span) == decimal(days) + "d"@
            &&& 1 <= days < 10 ==> pretty(span) == decimal(days) + "d "@ + decimal(hours) + "h"@
            &&& days == 0 && hours >= 1 ==> pretty(span) == decimal(hours) + "h "@ + decimal(minutes) + "m"@
            &&& days == 0 && hours == 0 && minutes >= 1 ==> pretty(span) == decimal(minutes)
                + "m "@ + decimal(seconds) + "s"@
            &&& days == 0 && hours == 0 && minutes == 0 ==> pretty(span) == decimal(seconds)
                + "s"@
        }),
{
    let total = ((days * 24 + hours) * 60 + minutes) * 60 + seconds;
    let span = total * 1_000_000_000 + rest;
    assert(span / 1_000_000_000 == total);
    assert(total % 60 == seconds);
    assert(total / 60 == (days * 24 + hours) * 60 + minutes);
    assert((total / 60) % 60 == minutes);
    assert(total / 3600 == days * 24 + hours);
    assert((total / 3600) % 24 == hours);
    assert(total / 86400 == days);
}

/// A span below zero, so many minutes and seconds of it, is shown by the seconds
/// alone, with their sign.
pub proof fn law_a_span_below_zero_shows_seconds(minutes: int, seconds: int, rest: int)
    requires
        0 <= minutes,
        0 <= seconds < 60,
        0 <= rest < 1_000_000_000,
    ensures
        pretty(-((minutes * 60 + seconds) * 1_000_000_000 + rest)) == decimal(-seconds)
            + "s"@,
{
    let total = minutes * 60 + seconds;
    let span = total * 1_000_000_000 + rest;
    assert(span / 1_000_000_000 == total);
    assert(total % 60 == seconds);
    assert(whole_seconds(-span) == -total);
}

/// A span of time to be shown, in nanoseconds.
#[derive(Clone, Copy, Debug, PartialEq, Eq)]
pub struct PrettyDuration(pub i128);

impl PrettyDuration {
    /// The span as a list shows it.
    pub fn to_text(self) -> (text: String)
        ensures
            text@ == pretty(self.0 as int),
    {
        let total: i128 = self.0 / NANOS;
        assert(total == whole_seconds(self.0 as int));
        let seconds: i128 = total % 60;
        let minutes: i128 = (total / 60) % 60;
        let hours: i128 = (total / 3600) % 24;
        let days: i128 = total / 86400;
        if days > 9 {
            two_units(days, "d", None, "")
        } else if days > 0 {
            two_units(days, "d ", Some(hours), "h")
        } else if hours > 0 {
            two_units(hours, "h ", Some(minutes), "m")
        } else if minutes > 0 {
            two_units(minutes, "m ", Some(seconds), "s")
        } else {
            two_units(seconds, "s", None, "")
        }
    }
}

fn two_units(large: i128, unit: &str, small: Option<i128>, last: &str) -> (text: String)
    requires
        large > i128::MIN,
        small matches Some(n) ==> n > i128::MIN,
    ensures
        text@ == (match small {
            Some(n) => decimal(large as int) + unit@ + decimal(n as int) + last@,
            None => decimal(large as int) + unit@,
        }),
{
    let mut text = decimal_text(large);
    text.append(unit);
    if let Some(n) = small {
        let rest = decimal_text(n);
        text.append(rest.as_str());
        text.append(last);
    }
    text
}

/// The time that `NaiveDateTime::from_str` reads in a text, or what it says
/// where it reads none.
pub uninterp spec fn naive_time(text: Seq<char>) -> Result<Timestamp, Seq<char>>;

/// `chrono::NaiveDateTime::from_str`: reads a date and time without a zone, and
/// says what is wrong where it cannot. Both depend on the text alone and are
/// called by a name; nothing is said of which texts it reads.
#[verifier::external_body]
pub(crate) fn read_naive(text: &str) -> (r: Result<Timestamp, String>)
    ensures
        match r {
            Ok(time) => naive_time(text@) == Ok::<Timestamp, Seq<char>>(time),
            Err(e) => naive_time(text@) == Err::<Timestamp, Seq<char>>(e@),
        },
{
    match <chrono::NaiveDateTime as std::str::FromStr>::from_str(text) {
        Ok(naive) => {
            let time = naive.and_utc();
            Ok(Timestamp { seconds: time.timestamp(), nanos: time.timestamp_subsec_nanos() })
        },
        Err(e) => Err(e.to_string()),
    }
}

/// The time in UTC that `DateTime::parse_from_rfc3339` reads in a text.
pub uninterp spec fn zoned_time(text: Seq<char>) -> Option<Timestamp>;

/// `chrono::DateTime::parse_from_rfc3339`: reads a date and time with a zone.
/// The time is given in UTC. What it reads depends on the text alone and is
/// called by a name; nothing is said of which texts it reads.
#[verifier::external_body]
pub(crate) fn read_zoned(text: &str) -> (r: Option<Timestamp>)
    ensures
        r == zoned_time(text@),
{
    let time = chrono::DateTime::parse_from_rfc3339(text).ok()?.naive_utc().and_utc();
    Some(Timestamp { seconds: time.timestamp(), nanos: time.timestamp_subsec_nanos() })
}

/// The format of the end time of a frame, where it has no zone.
pub const ENDTIME_FORMAT: &'static str = "%Y-%m-%dT%H:%M:%S%.f";

/// The time that `NaiveDateTime::parse_from_str` reads in a text by a format,
/// or what it says where it reads none.
pub uninterp spec fn formatted_time(text: Seq<char>, format: Seq<char>) -> Result<
    Timestamp,
    Seq<char>,
>;

/// `chrono::NaiveDateTime::parse_from_str`: reads a date and time without a
/// zone in the given format, and says what is wrong where it cannot. Both
/// depend on the text and the format alone and are called by a name; nothing
/// is said of which texts it reads.
#[verifier::external_body]
pub(crate) fn read_formatted(text: &str, format: &str) -> (r: Result<Timestamp, String>)
    requires
        format@ == ENDTIME_FORMAT@,
    ensures
        match r {
            Ok(time) => formatted_time(text@, format@) == Ok::<Timestamp, Seq<char>>(time),
            Err(e) => formatted_time(text@, format@) == Err::<Timestamp, Seq<char>>(e@),
        },
{
    match chrono::NaiveDateTime::parse_from_str(text, format) {
        Ok(naive) => {
            let time = naive.and_utc();
            Ok(Timestamp { seconds: time.timestamp(), nanos: time.timestamp_subsec_nanos() })
        },
        Err(e) => Err(e.to_string()),
    }
}

/// The time a span of nanoseconds before another, as
/// `NaiveDateTime::checked_sub_signed` counts it.
pub uninterp spec fn time_before(at: Timestamp, nanos: i64) -> Option<Timestamp>;

/// `chrono::NaiveDateTime::checked_sub_signed`: the time that lies the given
/// nanoseconds earlier. Outside leap seconds that is plain subtraction, which
/// fails where it leaves the calendar and nowhere else; away from the ends of
/// the calendar it never fails. How it steps out of a leap second is left to
/// the name.
#[verifier::external_body]
pub(crate) fn step_back(at: Timestamp, nanos: i64) -> (r: Option<Timestamp>)
    ensures
        r == time_before(at, nanos),
        at.ordinary() ==> match r {
            Some(time) => time.ordinary() && time.total() == at.total() - nanos,
            None => !(CALENDAR_FIRST * NANOS <= at.total() - nanos < (CALENDAR_LAST + 1) * NANOS),
        },
        at.roomy() ==> r is Some,
{
    let naive = chrono::DateTime::from_timestamp(at.seconds, at.nanos)?.naive_utc();
    let time = naive.checked_sub_signed(chrono::TimeDelta::nanoseconds(nanos))?.and_utc();
    Some(Timestamp { seconds: time.timestamp(), nanos: time.timestamp_subsec_nanos() })
}

/// The format of a time in a table.
pub const TABLE_FORMAT: &'static str = "%Y-%m-%dT%H:%M:%S";

/// How `NaiveDateTime::format` spells a time by a format, if the time is on the
/// calendar.
pub uninterp spec fn time_text(at: Timestamp, format: Seq<char>) -> Option<Seq<char>>;

/// `chrono::NaiveDateTime::format`: spells a time by a format. The spelling
/// depends on the two alone and is called by a name. Every ordinary time has
/// one.
#[verifier::external_body]
pub(crate) fn spell_time(at: Timestamp, format: &str) -> (r: Option<String>)
    requires
        format@ == TABLE_FORMAT@,
    ensures
        match r {
            Some(text) => time_text(at, format@) == Some(text@),
            None => time_text(at, format@) is None,
        },
        at.ordinary() ==> r is Some,
{
    let naive = chrono::DateTime::from_timestamp(at.seconds, at.nanos)?.naive_utc();
    Some(naive.format(format).to_string())
}

} // verus!
