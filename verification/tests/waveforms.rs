use chrono::Datelike;
use sqcli::api::{SensorKind, SensorRow};
use sqcli::cli::{Quality, SensorFilter};
use sqcli::fdsn::{poll_fault, poll_query, Feed, Seen, BACKFILL, OVERLAP};
use sqcli::mseed::RecordHeader;
use sqcli::number::Real;
use sqcli::stream::Update;
use sqcli::text::join;
use sqcli::timestamp::{Timestamp, CALENDAR_FIRST};
use sqcli::waveforms::{
    boundary, check_uid, dataselect_url, named_sensors, reply_kind, report, resolve_sensors,
    unusable_sensors, window_fault, window_query, Download, Reply, Report, Request, StreamTally,
};

#[test]
fn uids_must_be_alphanumeric() {
    assert!(check_uid("N16EGRY9").is_ok());
    assert!(check_uid("T0IZJPWK").is_ok());
    // Commas separate UIDs in the query, so one inside a UID would smuggle
    // in an extra sensor.
    assert!(check_uid("A,B").is_err());
    assert!(check_uid("../etc").is_err());
    assert!(check_uid("").is_err());
}

fn day(day: u32) -> Timestamp {
    let at = chrono::NaiveDate::from_ymd_opt(2026, 9, day)
        .unwrap()
        .and_hms_opt(0, 0, 0)
        .unwrap()
        .and_utc();
    Timestamp {
        seconds: at.timestamp(),
        nanos: 0,
    }
}

fn day_of(at: Timestamp) -> u32 {
    chrono::DateTime::from_timestamp(at.seconds, at.nanos)
        .unwrap()
        .day()
}

fn header(on: u32) -> RecordHeader {
    RecordHeader {
        network: "QS".into(),
        station: "BLA".into(),
        location: "".into(),
        channel: "HHZ".into(),
        start: day(on),
        length: 512,
        samples: 100,
        sample_rate: Real {
            bits: 100.0f64.to_bits(),
        },
        data_offset: 64,
        encoding: Some(11),
        data_big_endian: true,
    }
}

#[test]
fn a_tally_tracks_the_span_it_saw() {
    let mut tally = StreamTally::default();
    tally.add(&header(3), 512);
    tally.add(&header(1), 512);
    tally.add(&header(2), 512);

    assert_eq!(tally.records, 3);
    assert_eq!(tally.bytes, 1536);
    assert_eq!(day_of(tally.first.unwrap()), 1);
    assert_eq!(day_of(tally.last.unwrap()), 3);
}

#[test]
fn an_empty_tally_has_seen_nothing() {
    let tally = StreamTally::default();
    assert_eq!((tally.records, tally.bytes), (0, 0));
    assert!(tally.first.is_none() && tally.last.is_none());
}

fn request(sensors: &[&str], filters: &[SensorFilter]) -> Request {
    Request {
        sensors: sensors.iter().map(|uid| uid.to_string()).collect(),
        filters: filters.to_vec(),
        start: None,
        end: None,
        duration: None,
        output: "out.mseed".into(),
        quality: Quality::R,
        minimum_length: Real { bits: 0 },
        longest_only: true,
        chunk: None,
    }
}

#[test]
fn named_sensors_are_trimmed_checked_and_listed_once() {
    assert_eq!(
        named_sensors(&request(&[" B2 ", "A1", "B2"], &[])).unwrap(),
        ["B2", "A1"]
    );
    assert_eq!(
        named_sensors(&request(&["A1", "x,y", "?"], &[])).unwrap_err(),
        "\"x,y\" is not a sensor UID, expected letters and digits only"
    );
    assert_eq!(
        named_sensors(&request(&[" "], &[SensorFilter::Online])).unwrap_err(),
        "\"\" is not a sensor UID, expected letters and digits only"
    );
}

#[test]
fn a_stray_command_selects_nothing() {
    assert_eq!(
        named_sensors(&request(&[], &[])).unwrap_err(),
        "no sensors selected, name them with --sensor or pick them with --filter"
    );
    assert!(named_sensors(&request(&[], &[SensorFilter::Online]))
        .unwrap()
        .is_empty());
}

fn row(uid: &str) -> SensorRow {
    SensorRow {
        uid: uid.to_string(),
        kind: SensorKind::Mems,
        revision: String::new(),
        software_version: String::new(),
        first_seen: None,
        last_seen: 0,
        warnings: 0,
    }
}

#[test]
fn filtered_sensors_join_the_named_ones() {
    let rows = vec![row("C3"), row("A1"), row("no good"), row("C3")];
    assert_eq!(
        resolve_sensors(vec!["B2".into(), "A1".into()], &rows).unwrap(),
        ["A1", "B2", "C3"]
    );
    assert_eq!(
        resolve_sensors(vec![], &vec![row("?")]).unwrap_err(),
        "no sensors matched the selected filters"
    );
    // Joined for the query, the UIDs can be told apart again.
    let uids = resolve_sensors(vec![], &rows).unwrap();
    let joined = join(&uids, ",");
    assert_eq!(joined, "A1,C3");
    assert_eq!(joined.split(',').collect::<Vec<_>>(), uids);
}

#[test]
fn an_unusable_uid_is_spoken_of() {
    let rows = vec![row("A1"), row("no \"good\""), row(""), row("B2")];
    assert_eq!(
        unusable_sensors(&rows),
        [
            "skipping sensor with an unusable UID \"no \\\"good\\\"\"",
            "skipping sensor with an unusable UID \"\"",
        ]
    );
    assert!(unusable_sensors(&vec![row("A1")]).is_empty());
}

#[test]
fn the_first_request_reaches_back_to_the_edge_of_the_calendar() {
    let first = Timestamp {
        seconds: CALENDAR_FIRST + 300,
        nanos: 0,
    };
    let mut feed = Feed::begin(first);
    assert_eq!(feed.from.seconds, CALENDAR_FIRST);
    feed.answered(first, "A1");
    assert_eq!(feed.from.seconds, CALENDAR_FIRST + 270);
}

#[test]
fn a_window_is_asked_for_by_sensor() {
    assert_eq!(
        dataselect_url(),
        "https://fdsnws.network.quakesaver.net/fdsnws/dataselect/1/queryauth_jwt_by_id"
    );
    let query = window_query(
        "s".into(),
        "e".into(),
        "A1,B2",
        &request(&[], &[]),
        "0".into(),
    );
    let expected: Vec<(&str, String)> = [
        ("starttime", "s"),
        ("endtime", "e"),
        ("sensor_uids", "A1,B2"),
        ("quality", "R"),
        ("minimumlength", "0"),
        ("longestonly", "true"),
        ("format", "miniseed"),
    ]
    .iter()
    .map(|(name, value)| (*name, value.to_string()))
    .collect();
    assert_eq!(query, expected);
}

#[test]
fn the_status_of_an_answer_says_what_follows() {
    assert_eq!(reply_kind(204), Reply::Nothing);
    assert_eq!(reply_kind(401), Reply::Refused);
    assert_eq!(reply_kind(403), Reply::Refused);
    assert_eq!(reply_kind(200), Reply::Records);
    assert_eq!(reply_kind(299), Reply::Records);
    assert_eq!(reply_kind(300), Reply::Failed);
    assert_eq!(reply_kind(199), Reply::Failed);
    assert_eq!(reply_kind(500), Reply::Failed);
}

#[test]
fn a_window_that_fails_says_why() {
    assert_eq!(window_fault(Reply::Records, "200 OK", "x"), None);
    assert_eq!(window_fault(Reply::Nothing, "204 No Content", ""), None);
    assert_eq!(
        window_fault(Reply::Refused, "403 Forbidden", "x").unwrap(),
        "the FDSN service refused the request (403 Forbidden); check that your account may read \
         these sensors"
    );
    assert_eq!(
        window_fault(Reply::Failed, "500 Internal Server Error", "").unwrap(),
        "the FDSN service returned 500 Internal Server Error"
    );
    assert_eq!(
        window_fault(Reply::Failed, "400 Bad Request", " no\n such time \n").unwrap(),
        "the FDSN service returned 400 Bad Request: no\n such time"
    );
}

#[test]
fn a_record_across_a_boundary_is_written_once() {
    let mut download = Download::new();
    assert_eq!(boundary(0, day(1)), None);
    assert_eq!(boundary(1, day(2)), Some(day(2)));
    // The record of the first day straddles midnight and comes with both windows.
    assert!(download.accept(&header(1), 512, boundary(0, day(1))));
    assert!(!download.accept(&header(1), 512, boundary(1, day(2))));
    assert!(download.accept(&header(2), 256, boundary(1, day(2))));
    assert_eq!(download.written, 2);
    let counted: usize = (0..download.tallies.len())
        .map(|i| download.tallies.value(i).records)
        .sum();
    assert_eq!(counted, download.written);
    let i = download.tallies.find("QS.BLA..HHZ").unwrap();
    let tally = download.tallies.value(i);
    assert_eq!((tally.records, tally.bytes), (2, 768));
    assert_eq!(
        (tally.first.unwrap(), tally.last.unwrap()),
        (day(1), day(2))
    );
    assert!(download.has_room(&header(1), 512));
    assert!(!download.has_room(&header(1), usize::MAX));
}

#[test]
fn a_download_is_summed_up() {
    let mut download = Download::new();
    let mut other = header(2);
    other.channel = "HHE".into();
    download.accept(&header(1), 512, None);
    download.accept(&header(3), 512, None);
    download.accept(&other, 512, None);
    let sizes = vec!["0.5".to_string(), "1.0".to_string()];
    let expected = Report::Table {
        header: vec!["STREAM", "RECORDS", "KiB", "FIRST", "LAST"],
        rows: vec![
            vec![
                "QS.BLA..HHE",
                "1",
                "0.5",
                "2026-09-02T00:00:00",
                "2026-09-02T00:00:00",
            ],
            vec![
                "QS.BLA..HHZ",
                "2",
                "1.0",
                "2026-09-01T00:00:00",
                "2026-09-03T00:00:00",
            ],
        ]
        .into_iter()
        .map(|cells| cells.into_iter().map(String::from).collect())
        .collect(),
        summary: "3 records in 2 stream(s) written to 1 file(s) under out.mseed".into(),
    };
    assert_eq!(
        report(&download.tallies, &sizes, 3, 1, false, "out.mseed"),
        expected
    );
    assert_eq!(
        report(&download.tallies, &sizes, 3, 1, true, "-"),
        Report::Line("wrote 3 records".into())
    );
    assert_eq!(
        report(&download.tallies, &sizes, 0, 0, false, "-"),
        Report::Nothing("no data was available for the requested sensors and time range")
    );
}

#[test]
fn the_archive_is_polled_for_the_best_data() {
    let query = poll_query("s".into(), "e".into(), "A1");
    let text: Vec<String> = query
        .iter()
        .map(|(name, value)| format!("{}={}", name, value))
        .collect();
    assert_eq!(
        text.join("&"),
        "starttime=s&endtime=e&sensor_uids=A1&quality=B&format=miniseed"
    );
    assert_eq!(
        poll_fault(Reply::Refused, "403 Forbidden", "A1").unwrap(),
        "the FDSN service refused the request (403 Forbidden); check that your account may read A1"
    );
    assert_eq!(
        poll_fault(Reply::Failed, "502 Bad Gateway", "A1").unwrap(),
        "the FDSN service returned 502 Bad Gateway"
    );
    assert_eq!(poll_fault(Reply::Nothing, "204", "A1"), None);
    assert_eq!(poll_fault(Reply::Records, "200", "A1"), None);
}

#[test]
fn the_overlap_between_requests_is_not_drawn_twice() {
    let mut seen = Seen::new();
    let samples = || Ok(vec![Real::from_count(1)]);
    assert!(!seen.repeats(&header(2)));
    match seen.deliver(&header(2), samples()) {
        Some(Update::Data(chunk)) => assert_eq!(chunk.start, day(2)),
        other => panic!("{:?}", other),
    }
    assert!(seen.repeats(&header(2)));
    assert!(seen.repeats(&header(1)));
    assert!(!seen.repeats(&header(3)));
    // Another stream is another matter.
    let mut other = header(1);
    other.channel = "HHE".into();
    assert!(!seen.repeats(&other));
    // A record whose samples cannot be read is noticed, and asked for again.
    assert_eq!(
        seen.deliver(&header(3), Err("bad".into())),
        Some(Update::Notice("skipped a record: bad".into()))
    );
    assert!(!seen.repeats(&header(3)));
    // One without samples is only remembered.
    assert_eq!(seen.deliver(&header(3), Ok(vec![])), None);
    assert!(seen.repeats(&header(3)));
    assert!(seen.repeats(&header(2)));
}

#[test]
fn each_request_reaches_back_past_the_last() {
    let mut feed = Feed::begin(day(2));
    let back = |at: Timestamp, nanos: i64| Timestamp {
        seconds: at.seconds - nanos / 1_000_000_000,
        nanos: 0,
    };
    assert_eq!(feed.from, back(day(2), BACKFILL));
    assert_eq!(
        feed.answered(day(3), "A1"),
        Some(Update::Connected {
            server: "FDSN dataselect".into(),
            station: "A1".into()
        })
    );
    assert_eq!(feed.from, back(day(3), OVERLAP));
    assert_eq!(feed.answered(day(4), "A1"), None);
    assert_eq!(
        feed.failed("down".into()),
        Update::Disconnected("down".into())
    );
    // After a failure the next request asks from the same time on.
    assert_eq!(feed.from, back(day(4), OVERLAP));
    assert!(feed.answered(day(5), "A1").is_some());
}
