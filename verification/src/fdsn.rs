//! The live route through the archive: FDSN dataselect, asked again and again.
//!
//! This is the same service a download fetches from, so it needs nothing of the
//! sensor and works wherever the download works. What it cannot do is keep up:
//! data has to be recorded, shipped and archived before the service will hand
//! it back, so the view runs however far behind the archive does.
use vstd::prelude::*;

use crate::mseed::RecordHeader;
use crate::number::Real;
use crate::seedlink::{carries, record_chunk};
use crate::stream::Update;
use crate::text_map::law_changing_a_place_changes_its_key;
use crate::text_map::TextMap;
use crate::timestamp::{step_back, time_before, Timestamp, CALENDAR_FIRST, NANOS};
use crate::waveforms::{query_view, Reply};

verus! {

/// Seconds between two requests.
pub const POLL_INTERVAL: u64 = 2;

/// How much history to ask for on the first request, so the view opens with
/// something on it rather than filling from blank: five minutes, in
/// nanoseconds.
pub const BACKFILL: i64 = 300_000_000_000;

/// The archive is always a little behind, so each request reaches back past
/// where the last one ended rather than trusting the clock: half a minute, in
/// nanoseconds.
pub const OVERLAP: i64 = 30_000_000_000;

/// Seconds to wait before trying again after a request fails.
pub const RETRY_DELAY: u64 = 5;

/// What to ask the archive for. The times are given as the service spells them.
pub fn poll_query(starttime: String, endtime: String, uid: &str) -> (query: Vec<
    (&'static str, String),
>)
    ensures
        query_view(query@) == seq![
            ("starttime"@, starttime@),
            ("endtime"@, endtime@),
            ("sensor_uids"@, uid@),
            ("quality"@, "B"@),
            ("format"@, "miniseed"@),
        ],
{
    let mut query: Vec<(&'static str, String)> = Vec::new();
    query.push(("starttime", starttime));
    query.push(("endtime", endtime));
    query.push(("sensor_uids", uid.to_string()));
    query.push(("quality", "B".to_string()));
    query.push(("format", "miniseed".to_string()));
    assert(query_view(query@) =~= seq![
        ("starttime"@, starttime@),
        ("endtime"@, endtime@),
        ("sensor_uids"@, uid@),
        ("quality"@, "B"@),
        ("format"@, "miniseed"@),
    ]);
    query
}

/// What to say where the service refused a request or failed on it. That
/// nothing was recorded only means that the archive has not caught up yet.
pub fn poll_fault(reply: Reply, status: &str, uid: &str) -> (r: Option<String>)
    ensures
        match reply {
            Reply::Nothing | Reply::Records => r is None,
            Reply::Refused => r matches Some(text) && text@
                == "the FDSN service refused the request ("@ + status@
                + "); check that your account may read "@ + uid@,
            Reply::Failed => r matches Some(text) && text@ == "the FDSN service returned "@
                + status@,
        },
{
    match reply {
        Reply::Nothing | Reply::Records => None,
        Reply::Refused => {
            let mut text = "the FDSN service refused the request (".to_string();
            text.append(status);
            text.append("); check that your account may read ");
            text.append(uid);
            Some(text)
        },
        Reply::Failed => {
            let mut text = "the FDSN service returned ".to_string();
            text.append(status);
            Some(text)
        },
    }
}

/// A record is on screen already: it starts at or before the newest one of its
/// stream.
pub open spec fn on_screen(
    newest: Map<Seq<char>, Timestamp>,
    stream: Seq<char>,
    start: Timestamp,
) -> bool {
    newest.contains_key(stream) && start.le(newest[stream])
}

/// A record that the archive sent: its stream, its start, and how many samples
/// it carries where they can be read.
pub struct Arrival {
    pub stream: Seq<char>,
    pub start: Timestamp,
    pub samples: Option<nat>,
}

/// The record with the given header and samples.
pub open spec fn arrival(header: RecordHeader, samples: Result<Vec<Real>, String>) -> Arrival {
    Arrival {
        stream: header.stream(),
        start: header.start,
        samples: match samples {
            Ok(list) => Some(list@.len()),
            Err(_) => None,
        },
    }
}

/// The newest record start per stream after a record arrived. A record that is
/// on screen already changes nothing, nor does one whose samples cannot be
/// read, which is asked for again.
pub open spec fn newest_after(newest: Map<Seq<char>, Timestamp>, a: Arrival) -> Map<
    Seq<char>,
    Timestamp,
> {
    if on_screen(newest, a.stream, a.start) || a.samples is None {
        newest
    } else {
        newest.insert(a.stream, a.start)
    }
}

/// A record is drawn when it arrives: it is not on screen yet and carries
/// samples.
pub open spec fn is_drawn(newest: Map<Seq<char>, Timestamp>, a: Arrival) -> bool {
    !on_screen(newest, a.stream, a.start) && (a.samples matches Some(n) && n > 0)
}

/// A record carries samples, and its stream was never seen or the newest record
/// of it started earlier.
pub open spec fn a_new_record(newest: Map<Seq<char>, Timestamp>, a: Arrival) -> bool {
    &&& a.samples matches Some(n) && n >= 1
    &&& newest.contains_key(a.stream) ==> newest[a.stream].seconds < a.start.seconds || (
    newest[a.stream].seconds == a.start.seconds && newest[a.stream].nanos < a.start.nanos)
}

/// The newest record start per stream that has been handed to the view, which
/// keeps the overlap between requests from being drawn twice.
#[derive(Debug)]
pub struct Seen {
    pub newest: TextMap<Timestamp>,
}

impl Seen {
    /// A record is on screen already: it starts at or before the newest one of
    /// its stream.
    pub open spec fn covers(self, stream: Seq<char>, start: Timestamp) -> bool {
        on_screen(self.newest.map(), stream, start)
    }

    /// Nothing has been seen.
    pub fn new() -> (r: Self)
        ensures
            r.newest.well_formed(),
            r.newest.map() == Map::<Seq<char>, Timestamp>::empty(),
    {
        Seen { newest: TextMap::new() }
    }

    /// Whether a record came with the overlap and is on screen already.
    pub fn repeats(&self, header: &RecordHeader) -> (r: bool)
        requires
            self.newest.well_formed(),
        ensures
            r == self.covers(header.stream(), header.start),
            r <==> self.newest.map().contains_key(header.stream()) && (header.start.seconds
                < self.newest.map()[header.stream()].seconds || (header.start.seconds
                == self.newest.map()[header.stream()].seconds && header.start.nanos
                <= self.newest.map()[header.stream()].nanos)),
    {
        let stream = header.stream_id();
        match self.newest.find(stream.as_str()) {
            Some(i) => header.start.not_after(*self.newest.value(i)),
            None => false,
        }
    }

    /// What to tell the view about a record that is not on screen yet, if
    /// anything. A record whose samples could not be read is only noticed, and
    /// asked for again; one without samples is only remembered.
    pub fn deliver(&mut self, header: &RecordHeader, samples: Result<Vec<Real>, String>) -> (r:
        Option<Update>)
        requires
            old(self).newest.well_formed(),
            !old(self).covers(header.stream(), header.start),
        ensures
            final(self).newest.well_formed(),
            final(self).newest.map() == newest_after(
                old(self).newest.map(),
                arrival(*header, samples),
            ),
            r matches Some(Update::Data(_)) <==> is_drawn(
                old(self).newest.map(),
                arrival(*header, samples),
            ),
            forall|stream: Seq<char>, start: Timestamp|
                old(self).covers(stream, start) ==> final(self).covers(stream, start),
            match samples {
                Err(e) => r matches Some(Update::Notice(text)) && text@ == "skipped a record: "@
                    + e@,
                Ok(list) => if list@.len() == 0 {
                    r is None
                } else {
                    r matches Some(Update::Data(chunk)) && carries(chunk, *header, list)
                },
            },
    {
        let list = match samples {
            Err(e) => {
                let mut text = "skipped a record: ".to_string();
                text.append(e.as_str());
                return Some(Update::Notice(text));
            },
            Ok(list) => list,
        };
        let stream = header.stream_id();
        let ghost map = self.newest.map();
        let i = self.newest.ensure(stream.as_str(), header.start);
        let ghost ready = self.newest;
        *self.newest.value_mut(i) = header.start;
        proof {
            law_changing_a_place_changes_its_key(ready, self.newest, i as int, header.start);
            assert(self.newest.map() =~= map.insert(header.stream(), header.start));
        }
        if list.len() == 0 {
            return None;
        }
        Some(Update::Data(record_chunk(header, list)))
    }
}

/// A record is held to be on screen only if its stream has been seen and the
/// record starts no later than the newest start seen of it.
pub proof fn law_only_what_was_seen_is_on_screen(
    newest: Map<Seq<char>, Timestamp>,
    stream: Seq<char>,
    start: Timestamp,
    seen: Seen,
)
    ensures
        on_screen(newest, stream, start) ==> newest.contains_key(stream) && (start.seconds
            < newest[stream].seconds || (start.seconds == newest[stream].seconds && start.nanos
            <= newest[stream].nanos)),
        newest.contains_key(stream) && (start.seconds < newest[stream].seconds || (start.seconds
            == newest[stream].seconds && start.nanos <= newest[stream].nanos)) ==> on_screen(
            newest,
            stream,
            start,
        ),
        !newest.contains_key(stream) ==> !on_screen(newest, stream, start),
        seen.covers(stream, start) <==> seen.newest.map().contains_key(stream) && !(
        seen.newest.map()[stream].seconds < start.seconds || (seen.newest.map()[stream].seconds
            == start.seconds && seen.newest.map()[stream].nanos < start.nanos)),
{
}

/// A record is drawn exactly if it carries samples and is the first of its
/// stream or starts after the newest one of it.
pub proof fn law_new_records_with_samples_are_drawn(
    newest: Map<Seq<char>, Timestamp>,
    a: Arrival,
)
    ensures
        is_drawn(newest, a) <==> a.samples is Some && a.samples->0 >= 1 && (!newest.contains_key(
            a.stream,
        ) || newest[a.stream].seconds < a.start.seconds || (newest[a.stream].seconds
            == a.start.seconds && newest[a.stream].nanos < a.start.nanos)),
{
}

/// What is remembered of a stream is the latest start of all its records that
/// could be read, and a record touches no other stream. One that could not be
/// read is not remembered.
pub proof fn law_the_latest_start_is_remembered(
    newest: Map<Seq<char>, Timestamp>,
    a: Arrival,
    other: Seq<char>,
)
    ensures
        a.samples is None ==> newest_after(newest, a) == newest,
        a.samples is Some ==> newest_after(newest, a).contains_key(a.stream) && newest_after(
            newest,
            a,
        )[a.stream] == (if newest.contains_key(a.stream) {
            newest[a.stream].latest(a.start)
        } else {
            a.start
        }),
        other != a.stream ==> (newest_after(newest, a).contains_key(other) <==> newest.contains_key(
            other,
        )) && (newest.contains_key(other) ==> newest_after(newest, a)[other] == newest[other]),
{
}

/// A record arrives under its stream and its start, with as many samples as
/// could be read.
pub proof fn law_a_record_arrives_as_it_is(
    header: RecordHeader,
    samples: Result<Vec<Real>, String>,
)
    ensures
        arrival(header, samples).stream == header.stream(),
        arrival(header, samples).start == header.start,
        samples matches Ok(list) ==> arrival(header, samples).samples == Some(list@.len()),
        samples is Err ==> arrival(header, samples).samples is None,
{
}

/// A record that was taken in is on screen from then on, with all that was on
/// screen before: the newest start of a stream never goes back.
pub proof fn law_the_newest_start_never_goes_back(newest: Map<Seq<char>, Timestamp>, a: Arrival)
    ensures
        forall|stream: Seq<char>, start: Timestamp|
            on_screen(newest, stream, start) ==> on_screen(newest_after(newest, a), stream, start),
        a.samples is Some ==> on_screen(newest_after(newest, a), a.stream, a.start),
{
}

/// Of records that arrive one after the other, those that are drawn.
pub open spec fn drawn(newest: Map<Seq<char>, Timestamp>, arrivals: Seq<Arrival>) -> Seq<Arrival>
    decreases arrivals.len(),
{
    if arrivals.len() == 0 {
        seq![]
    } else {
        let rest = drawn(newest_after(newest, arrivals[0]), arrivals.skip(1));
        if is_drawn(newest, arrivals[0]) {
            seq![arrivals[0]] + rest
        } else {
            rest
        }
    }
}

/// Records are taken in one after the other: the first is drawn if it carries
/// samples and is new, and the others as if it had been seen before them.
pub proof fn law_records_are_taken_in_turn(
    newest: Map<Seq<char>, Timestamp>,
    first: Arrival,
    rest: Seq<Arrival>,
)
    ensures
        drawn(newest, seq![first] + rest) == (if a_new_record(newest, first) {
            seq![first]
        } else {
            Seq::empty()
        }) + drawn(newest_after(newest, first), rest),
        drawn(newest, Seq::empty()) == Seq::<Arrival>::empty(),
{
    let all = seq![first] + rest;
    assert(all.skip(1) =~= rest);
    assert(drawn(newest, all) =~= (if a_new_record(newest, first) {
        seq![first]
    } else {
        Seq::empty()
    }) + drawn(newest_after(newest, first), rest));
}

/// None of the records is on screen already, and each starts after every one of
/// its stream before it.
pub open spec fn all_new(newest: Map<Seq<char>, Timestamp>, records: Seq<Arrival>) -> bool {
    &&& forall|i: int|
        0 <= i < records.len() ==> !on_screen(
            newest,
            (#[trigger] records[i]).stream,
            records[i].start,
        )
    &&& forall|i: int, j: int|
        0 <= i < j < records.len() && records[i].stream == records[j].stream ==> !(
        #[trigger] records[j]).start.le((#[trigger] records[i]).start)
}

/// Nothing is drawn that is on screen already, and what is drawn of a stream
/// starts after everything drawn of it before; so however often the requests
/// overlap, no record is drawn twice.
pub proof fn law_nothing_is_drawn_twice(
    newest: Map<Seq<char>, Timestamp>,
    arrivals: Seq<Arrival>,
)
    ensures
        all_new(newest, drawn(newest, arrivals)),
    decreases arrivals.len(),
{
    if arrivals.len() > 0 {
        let first = arrivals[0];
        let later = newest_after(newest, first);
        let tail = drawn(later, arrivals.skip(1));
        law_nothing_is_drawn_twice(later, arrivals.skip(1));
        law_the_newest_start_never_goes_back(newest, first);
        let all = drawn(newest, arrivals);
        assert forall|i: int| 0 <= i < tail.len() implies !on_screen(
            newest,
            (#[trigger] tail[i]).stream,
            tail[i].start,
        ) by {
            assert(!on_screen(later, tail[i].stream, tail[i].start));
        }
        if is_drawn(newest, first) {
            assert(all == seq![first] + tail);
            assert forall|i: int| 0 <= i < all.len() implies !on_screen(
                newest,
                (#[trigger] all[i]).stream,
                all[i].start,
            ) by {
                if i > 0 {
                    assert(all[i] == tail[i - 1]);
                }
            }
            assert forall|i: int, j: int|
                0 <= i < j < all.len() && all[i].stream == all[j].stream implies !(
            #[trigger] all[j]).start.le((#[trigger] all[i]).start) by {
                assert(all[j] == tail[j - 1]);
                assert(!on_screen(later, tail[j - 1].stream, tail[j - 1].start));
                if i > 0 {
                    assert(all[i] == tail[i - 1]);
                }
            }
        } else {
            assert(all == tail);
        }
    }
}

/// Every record with samples that starts after all that was on screen of its
/// stream is drawn: the overlap loses nothing.
pub proof fn law_a_newer_record_is_drawn(
    newest: Map<Seq<char>, Timestamp>,
    arrivals: Seq<Arrival>,
    i: int,
)
    requires
        0 <= i < arrivals.len(),
        is_drawn(newest, arrivals[i]),
        forall|j: int|
            0 <= j < i && (#[trigger] arrivals[j]).stream == arrivals[i].stream
                && arrivals[j].samples is Some ==> !arrivals[i].start.le(arrivals[j].start),
    ensures
        drawn(newest, arrivals).contains(arrivals[i]),
    decreases arrivals.len(),
{
    let first = arrivals[0];
    let rest = arrivals.skip(1);
    let all = drawn(newest, arrivals);
    if i == 0 {
        assert(all[0] == first);
    } else {
        let later = newest_after(newest, first);
        assert(rest[i - 1] == arrivals[i]);
        assert forall|j: int|
            0 <= j < i - 1 && (#[trigger] rest[j]).stream == rest[i - 1].stream
                && rest[j].samples is Some implies !rest[i - 1].start.le(rest[j].start) by {
            assert(rest[j] == arrivals[j + 1]);
        }
        law_a_newer_record_is_drawn(later, rest, i - 1);
        let tail = drawn(later, rest);
        let k = choose|k: int| 0 <= k < tail.len() && tail[k] == arrivals[i];
        if is_drawn(newest, first) {
            assert(all[k + 1] == arrivals[i]);
        } else {
            assert(all[k] == arrivals[i]);
        }
    }
}

/// Every record with samples is drawn of a stream that was never seen, and of
/// any other if it starts after the newest one; an earlier arrival stands in its
/// way only if it was of the same stream, could be read and started no earlier.
pub proof fn law_no_new_record_is_lost(
    newest: Map<Seq<char>, Timestamp>,
    arrivals: Seq<Arrival>,
    i: int,
)
    requires
        0 <= i < arrivals.len(),
        a_new_record(newest, arrivals[i]),
        forall|j: int|
            0 <= j < i && (#[trigger] arrivals[j]).stream == arrivals[i].stream
                && arrivals[j].samples is Some ==> arrivals[j].start.seconds
                < arrivals[i].start.seconds || (arrivals[j].start.seconds
                == arrivals[i].start.seconds && arrivals[j].start.nanos < arrivals[i].start.nanos),
    ensures
        drawn(newest, arrivals).contains(arrivals[i]),
{
    law_a_newer_record_is_drawn(newest, arrivals, i);
}

/// What is drawn arrived, and carries samples.
pub proof fn law_what_is_drawn_has_arrived(
    newest: Map<Seq<char>, Timestamp>,
    arrivals: Seq<Arrival>,
    k: int,
)
    requires
        0 <= k < drawn(newest, arrivals).len(),
    ensures
        arrivals.contains(drawn(newest, arrivals)[k]),
        drawn(newest, arrivals)[k].samples matches Some(n) && n >= 1,
    decreases arrivals.len(),
{
    let all = drawn(newest, arrivals);
    let later = newest_after(newest, arrivals[0]);
    let rest = arrivals.skip(1);
    let tail = drawn(later, rest);
    if is_drawn(newest, arrivals[0]) && k == 0 {
        assert(all[0] == arrivals[0]);
    } else {
        let t = if is_drawn(newest, arrivals[0]) {
            k - 1
        } else {
            k
        };
        assert(all[k] == tail[t]);
        law_what_is_drawn_has_arrived(later, rest, t);
        let m = choose|m: int| 0 <= m < rest.len() && rest[m] == tail[t];
        assert(arrivals[m + 1] == tail[t]);
    }
}

/// Each request reaches back past the one before it, even where one failed in
/// between, and the first reaches back further than any other.
pub proof fn law_requests_overlap()
    ensures
        (POLL_INTERVAL + RETRY_DELAY) * 1_000_000_000 < OVERLAP,
        OVERLAP < BACKFILL,
        BACKFILL == 5 * 60 * 1_000_000_000,
        OVERLAP == 30 * 1_000_000_000,
        POLL_INTERVAL == 2,
        RETRY_DELAY == 5,
{
}

/// A time lies far enough from the first day of the calendar that the given
/// nanoseconds can be taken off it.
pub open spec fn can_reach_back(now: Timestamp, nanos: i64) -> bool {
    now.roomy() || (now.ordinary() && now.total() - nanos >= CALENDAR_FIRST * NANOS)
}

/// Any time can be reached back from, short of the first seconds of the
/// calendar and of a leap second near either of its ends.
pub proof fn law_any_ordinary_time_can_be_reached_back_from(now: Timestamp, nanos: i64)
    requires
        0 <= nanos,
    ensures
        now.nanos < 1_000_000_000 && now.seconds <= 8_210_266_876_799 && (now.seconds
            + 8_334_601_228_800) * 1_000_000_000 + now.nanos >= nanos ==> can_reach_back(
            now,
            nanos,
        ),
        now.nanos < 2_000_000_000 && now.seconds % 60 == 59 && -8_325_301_228_800 <= now.seconds
            <= 8_200_966_876_799 ==> can_reach_back(now, nanos),
{
}

/// How far the polling of the archive has come.
#[derive(Debug)]
pub struct Feed {
    /// From when on to ask next.
    pub from: Timestamp,
    /// Whether the view knows that the archive answers.
    pub connected: bool,
}

impl Feed {
    /// The polling begins: the first request reaches back a few minutes.
    pub fn begin(now: Timestamp) -> (r: Self)
        requires
            can_reach_back(now, BACKFILL),
        ensures
            Some(r.from) == time_before(now, BACKFILL),
            now.ordinary() ==> r.from.ordinary() && r.from.total() == now.total() - BACKFILL,
            now.ordinary() ==> r.from.seconds == now.seconds - 300 && r.from.nanos == now.nanos,
            !r.connected,
    {
        Feed { from: step_back(now, BACKFILL).unwrap(), connected: false }
    }

    /// A request was answered. The next one reaches back a little, since a
    /// record straddling the boundary may not have been archived yet. The view
    /// is told on the first answer, and on the first after a failure.
    pub fn answered(&mut self, now: Timestamp, uid: &str) -> (r: Option<Update>)
        requires
            can_reach_back(now, OVERLAP),
        ensures
            final(self).connected,
            Some(final(self).from) == time_before(now, OVERLAP),
            now.ordinary() ==> final(self).from.ordinary() && final(self).from.total()
                == now.total() - OVERLAP,
            now.ordinary() ==> final(self).from.seconds == now.seconds - 30
                && final(self).from.nanos == now.nanos,
            old(self).connected ==> r is None,
            !old(self).connected ==> (r matches Some(Update::Connected { server, station })
                && server@ == "FDSN dataselect"@ && station@ == uid@),
    {
        let update = if self.connected {
            None
        } else {
            Some(
                Update::Connected {
                    server: "FDSN dataselect".to_string(),
                    station: uid.to_string(),
                },
            )
        };
        self.connected = true;
        self.from = step_back(now, OVERLAP).unwrap();
        update
    }

    /// A request failed. The next one asks from the same time on.
    pub fn failed(&mut self, reason: String) -> (r: Update)
        ensures
            !final(self).connected,
            final(self).from == old(self).from,
            r == Update::Disconnected(reason),
    {
        self.connected = false;
        Update::Disconnected(reason)
    }
}

} // verus!
