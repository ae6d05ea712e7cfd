use sqcli::api::{
    anonymous_configuration, credentials, hit_request_limit, note_skipped, present_sensors,
    revision_icon, selected_sensors, skipped_sensors, sort_sensors, Listing, SMIQClient, Sensor, SensorKind, SensorRow, Warnings,
};
use sqcli::cli::{
    chosen_transport, ActionOptions, Facet, Quality, SensorFilter, SensorSort, FACETS,
};
use sqcli::stream::Transport;
use sqcli::timestamp::{PrettyDuration, Timestamp};

const MINUTE: i128 = 60_000_000_000;

/// A row with sensible defaults, so each test only states what it cares about.
fn row(uid: &str, revision: &str, minutes_since_seen: i64) -> SensorRow {
    SensorRow {
        uid: uid.to_string(),
        kind: SensorKind::from_revision(revision),
        revision: revision.to_string(),
        software_version: "1.0.0".to_string(),
        first_seen: None,
        last_seen: minutes_since_seen as i128 * MINUTE,
        warnings: 0,
    }
}

fn uids(rows: &[SensorRow]) -> Vec<&str> {
    rows.iter().map(|r| r.uid.as_str()).collect()
}

fn time(text: &str) -> Timestamp {
    let at = text.parse::<chrono::NaiveDateTime>().unwrap().and_utc();
    Timestamp {
        seconds: at.timestamp(),
        nanos: at.timestamp_subsec_nanos(),
    }
}

#[test]
fn revisions_map_to_hardware_families() {
    assert_eq!(SensorKind::from_revision("OPI0_ADXL_1.0"), SensorKind::Mems);
    assert_eq!(SensorKind::from_revision("RPI0_BMA_0.6"), SensorKind::Mems);
    assert_eq!(
        SensorKind::from_revision("RPI4_HIDRA_1.0"),
        SensorKind::Hidra
    );
    // A future revision of a board we know still lands in its family.
    assert_eq!(SensorKind::from_revision("OPI0_ADXL_1.1"), SensorKind::Mems);
    assert_eq!(SensorKind::from_revision("unknown"), SensorKind::Unknown);
}

#[test]
fn online_is_decided_by_the_offline_threshold() {
    assert!(row("A", "OPI0_ADXL_1.0", 30).online());
    assert!(!row("B", "OPI0_ADXL_1.0", 90).online());
}

#[test]
fn no_filters_selects_everything() {
    assert!(row("A", "OPI0_ADXL_1.0", 30).selected_by(&[]));
    assert!(row("B", "RPI4_HIDRA_1.0", 900).selected_by(&[]));
}

#[test]
fn filters_in_one_facet_widen_the_selection() {
    let families = [SensorFilter::Mems, SensorFilter::Hidra];
    assert!(row("A", "OPI0_ADXL_1.0", 30).selected_by(&families));
    assert!(row("B", "RPI4_HIDRA_1.0", 30).selected_by(&families));
    assert!(!row("C", "unknown", 30).selected_by(&families));
}

#[test]
fn filters_across_facets_narrow_the_selection() {
    let online_mems = [SensorFilter::Online, SensorFilter::Mems];
    assert!(row("A", "OPI0_ADXL_1.0", 30).selected_by(&online_mems));
    // Right family, but stale.
    assert!(!row("B", "OPI0_ADXL_1.0", 90).selected_by(&online_mems));
    // Online, but wrong family.
    assert!(!row("C", "RPI4_HIDRA_1.0", 30).selected_by(&online_mems));
}

#[test]
fn the_warnings_filter_is_its_own_facet() {
    let mut warned = row("A", "OPI0_ADXL_1.0", 30);
    warned.warnings = 2;
    let quiet = row("B", "OPI0_ADXL_1.0", 30);

    assert!(warned.selected_by(&[SensorFilter::Warnings]));
    assert!(!quiet.selected_by(&[SensorFilter::Warnings]));
    // And it still ANDs with a family filter.
    assert!(!warned.selected_by(&[SensorFilter::Warnings, SensorFilter::Hidra]));
}

#[test]
fn sorting_by_uid_is_alphabetical_and_reversible() {
    let mut rows = vec![
        row("C", "OPI0_ADXL_1.0", 10),
        row("A", "OPI0_ADXL_1.0", 20),
        row("B", "OPI0_ADXL_1.0", 30),
    ];

    sort_sensors(&mut rows, SensorSort::Uid, false);
    assert_eq!(uids(&rows), ["A", "B", "C"]);

    sort_sensors(&mut rows, SensorSort::Uid, true);
    assert_eq!(uids(&rows), ["C", "B", "A"]);
}

#[test]
fn sorting_by_last_seen_puts_the_freshest_first() {
    let mut rows = vec![
        row("A", "OPI0_ADXL_1.0", 600),
        row("B", "OPI0_ADXL_1.0", 5),
        row("C", "OPI0_ADXL_1.0", 60),
    ];

    sort_sensors(&mut rows, SensorSort::LastSeen, false);
    assert_eq!(uids(&rows), ["B", "C", "A"]);
}

#[test]
fn rows_sharing_a_sort_key_fall_back_to_the_uid() {
    let mut rows = vec![row("B", "OPI0_ADXL_1.0", 10), row("A", "RPI0_BMA_0.6", 10)];

    sort_sensors(&mut rows, SensorSort::LastSeen, false);
    assert_eq!(uids(&rows), ["A", "B"]);
}

fn sensor() -> Sensor {
    Sensor {
        uid: "A".to_string(),
        software_version: "1.0.0".to_string(),
        hardware_revision: "OPI0_ADXL_1.0".to_string(),
        first_seen: "not a timestamp".to_string(),
        last_updated: "2026-08-16T11:30:00".to_string(),
        warnings: None,
        max_data_product_count: 0,
    }
}

#[test]
fn a_sensor_with_an_unreadable_last_updated_is_dropped() {
    let now = time("2026-08-16T12:00:00");
    let mut sensor = sensor();

    // An unreadable `first_seen` only costs us the sort key.
    let parsed = SensorRow::from_sensor(&sensor, now).expect("row");
    assert_eq!(parsed.last_seen, 30 * MINUTE);
    assert!(parsed.first_seen.is_none());

    sensor.last_updated = "not a timestamp".to_string();
    assert!(SensorRow::from_sensor(&sensor, now).is_none());
}

#[test]
fn a_row_holds_what_the_sensor_says() {
    let now = time("2026-08-16T12:00:00");
    let mut sensor = sensor();
    sensor.first_seen = "2026-08-01T00:00:00.25".to_string();
    sensor.warnings = Some(Warnings {
        data: Some(vec!["a".into(), "b".into()]),
    });
    let parsed = SensorRow::from_sensor(&sensor, now).unwrap();
    assert_eq!(parsed.uid, "A");
    assert_eq!(parsed.kind, SensorKind::Mems);
    assert_eq!(parsed.revision, "OPI0_ADXL_1.0");
    assert_eq!(parsed.software_version, "1.0.0");
    assert_eq!(parsed.first_seen, Some(time("2026-08-01T00:00:00.25")));
    assert_eq!(parsed.warnings, 2);
    sensor.warnings = Some(Warnings { data: None });
    assert_eq!(SensorRow::from_sensor(&sensor, now).unwrap().warnings, 0);
}

#[test]
fn what_was_read_of_the_times_decides_about_a_row() {
    let now = time("2026-08-16T12:00:00");
    assert!(SensorRow::from_times(&sensor(), None, Some(now), now).is_none());
    let parsed =
        SensorRow::from_times(&sensor(), Some(time("2026-08-16T11:00:00")), Some(now), now).unwrap();
    assert_eq!(parsed.last_seen, 60 * MINUTE);
    assert_eq!(parsed.first_seen, Some(now));
}

#[test]
fn a_sensor_is_online_up_to_the_hour() {
    let mut sensor = row("A", "OPI0_ADXL_1.0", 60);
    assert!(sensor.online());
    sensor.last_seen += 1;
    assert!(!sensor.online());
    // A clock that is behind the sensor's does not make it stale.
    sensor.last_seen = -MINUTE;
    assert!(sensor.online());
}

#[test]
fn status_and_family_are_told_apart() {
    let hidra = row("A", "RPI4_HIDRA_1.0", 90);
    assert!(hidra.matches(SensorFilter::Hidra) && hidra.matches(SensorFilter::Offline));
    assert!(!hidra.matches(SensorFilter::Mems) && !hidra.matches(SensorFilter::Online));
    assert!(!hidra.matches(SensorFilter::Unknown) && !hidra.matches(SensorFilter::Warnings));
    assert_eq!(SensorKind::Hidra.to_text(), "HiDRA");
    assert_eq!(SensorKind::Mems.to_text(), "MEMS");
    assert_eq!(SensorKind::Unknown.to_text(), "unknown");
    // The first family named in a revision that names two is HiDRA.
    assert_eq!(SensorKind::from_revision("ADXL_HIDRA"), SensorKind::Hidra);
}

#[test]
fn every_revision_has_an_icon() {
    assert_eq!(revision_icon("RPI4_HIDRA_1.0"), "🌀");
    assert_eq!(revision_icon("OPI0_ADXL_1.0"), "▣ ");
    assert_eq!(revision_icon("RPI0_BMA_0.6"), "🌋");
    assert_eq!(revision_icon("unknown"), "? ");
}

#[test]
fn every_column_sorts_by_its_own_value() {
    let mut a = row("A", "RPI4_HIDRA_1.0", 1);
    a.software_version = "1.2.0".into();
    a.first_seen = Some(time("2026-02-01T00:00:00"));
    a.warnings = 1;
    let mut b = row("B", "OPI0_ADXL_1.0", 2);
    b.software_version = "1.10.0".into();
    b.first_seen = None;
    b.warnings = 0;
    let mut c = row("C", "RPI0_BMA_0.6", 3);
    c.software_version = "0.9".into();
    c.first_seen = Some(time("2026-01-01T00:00:00"));
    c.warnings = 3;
    let sorted = |by: SensorSort, descending: bool| {
        let mut rows = vec![c.clone(), a.clone(), b.clone()];
        sort_sensors(&mut rows, by, descending);
        uids(&rows).join("")
    };
    assert_eq!(sorted(SensorSort::Uid, false), "ABC");
    assert_eq!(sorted(SensorSort::LastSeen, false), "ABC");
    assert_eq!(sorted(SensorSort::LastSeen, true), "CBA");
    assert_eq!(sorted(SensorSort::FirstSeen, false), "BCA");
    assert_eq!(sorted(SensorSort::Version, false), "CBA");
    assert_eq!(sorted(SensorSort::Type, false), "ABC");
    assert_eq!(sorted(SensorSort::Warnings, false), "BAC");
    assert_eq!(sorted(SensorSort::Warnings, true), "CAB");
}

#[test]
fn sensors_of_one_family_are_sorted_by_uid() {
    let mut rows = vec![row("B", "OPI0_ADXL_1.0", 10), row("A", "RPI0_BMA_0.6", 10)];
    sort_sensors(&mut rows, SensorSort::Type, false);
    assert_eq!(uids(&rows), ["A", "B"]);

    let mut rows = vec![
        row("C", "RPI0_BMA_0.6", 1),
        row("B", "OPI0_ADXL_1.0", 1),
        row("A", "RPI0_BMA_0.6", 1),
        row("D", "RPI4_HIDRA_1.0", 1),
    ];
    sort_sensors(&mut rows, SensorSort::Type, false);
    assert_eq!(uids(&rows), ["D", "A", "B", "C"]);
}

#[test]
fn sorting_twice_changes_nothing_and_loses_nothing() {
    let mut rows: Vec<SensorRow> = (0..40)
        .map(|i| row(&format!("S{}", (i * 17) % 40), "x", (i * 7) % 5))
        .collect();
    sort_sensors(&mut rows, SensorSort::LastSeen, false);
    let once = rows.clone();
    sort_sensors(&mut rows, SensorSort::LastSeen, false);
    assert_eq!(rows, once);
    let mut names = uids(&rows);
    names.sort();
    names.dedup();
    assert_eq!(names.len(), 40);
    for pair in once.windows(2) {
        assert!((pair[0].last_seen, &pair[0].uid) <= (pair[1].last_seen, &pair[1].uid));
    }
}

#[test]
fn the_filters_decide_which_sensors_are_kept() {
    let now = time("2026-08-16T12:00:00");
    let mut stale = sensor();
    stale.uid = "B".into();
    stale.last_updated = "2026-08-15T12:00:00".into();
    let mut broken = sensor();
    broken.last_updated = "".into();
    let all = vec![sensor(), stale, broken];
    assert_eq!(uids(&selected_sensors(&all, now, &[])), ["A", "B"]);
    assert_eq!(
        uids(&selected_sensors(&all, now, &[SensorFilter::Offline])),
        ["B"]
    );
    assert!(selected_sensors(&all, now, &[SensorFilter::Hidra]).is_empty());
    assert!(hit_request_limit(1000));
    assert!(!hit_request_limit(999));
}

#[test]
fn a_skipped_sensor_is_spoken_of() {
    let mut broken = sensor();
    broken.uid = "B".into();
    broken.last_updated = "not \"a\" time".into();
    let mut empty = sensor();
    empty.last_updated = String::new();
    assert_eq!(
        skipped_sensors(&vec![sensor(), broken.clone(), empty]),
        [
            "skipping sensor B: cannot parse last_updated \"not \\\"a\\\" time\" (input contains \
             invalid characters)",
            "skipping sensor A: cannot parse last_updated \"\" (premature end of input)",
        ]
    );
    assert!(skipped_sensors(&vec![sensor()]).is_empty());
    assert_eq!(
        note_skipped(&broken, "why"),
        "skipping sensor B: cannot parse last_updated \"not \\\"a\\\" time\" (why)"
    );
}

#[test]
fn the_list_shows_a_line_for_each_sensor() {
    let mut warned = row("LONGERUID1", "RPI0_BMA_0.6", 75);
    warned.warnings = 3;
    let mut hidra = row("XYZ12345", "RPI4_HIDRA_1.0", 73 * 60);
    hidra.software_version = "1.12.0-rc1".into();
    let listing = present_sensors(&vec![row("A3B7K9Q2", "OPI0_ADXL_1.0", 5), hidra, warned]);
    let expected = Listing::Table {
        header: vec!["", "UID", "TYPE", "STATUS", "VERSION", "LAST SEEN", "WARN"],
        rows: vec![
            vec!["▣ ", "A3B7K9Q2", "MEMS", "online", "1.0.0", "5m 0s", ""],
            vec!["🌀", "XYZ12345", "HiDRA", "offline", "1.12.0-rc1", "3d 1h", ""],
            vec!["🌋", "LONGERUID1", "MEMS", "offline", "1.0.0", "1h 15m", "3"],
        ]
        .into_iter()
        .map(|cells| cells.into_iter().map(String::from).collect())
        .collect(),
    };
    assert_eq!(listing, expected);
    assert_eq!(
        present_sensors(&vec![]),
        Listing::Nothing("no sensors match the selected filters")
    );
}

#[test]
fn a_span_is_shown_in_its_largest_units() {
    let shown = |seconds: i128| PrettyDuration(seconds * 1_000_000_000).to_text();
    assert_eq!(shown(0), "0s");
    assert_eq!(shown(59), "59s");
    assert_eq!(shown(60), "1m 0s");
    assert_eq!(shown(3_599), "59m 59s");
    assert_eq!(shown(3_600), "1h 0m");
    assert_eq!(shown(86_399), "23h 59m");
    assert_eq!(shown(86_400), "1d 0h");
    assert_eq!(shown(863_999), "9d 23h");
    assert_eq!(shown(864_000), "10d");
    assert_eq!(shown(-5), "-5s");
    assert_eq!(shown(-65), "-5s");
    assert_eq!(PrettyDuration(1_999_999_999).to_text(), "1s");
    assert_eq!(PrettyDuration(-1_999_999_999).to_text(), "-1s");
}

#[test]
fn credentials_are_missed_by_name() {
    let some = |text: &str| Some(text.to_string());
    assert_eq!(
        credentials(some("me"), some("pass")),
        Ok(("me".to_string(), "pass".to_string()))
    );
    assert_eq!(
        credentials(None, None).unwrap_err(),
        "SEISMIQ_USERNAME is not set; see the README for how to sign in"
    );
    assert_eq!(
        credentials(some("me"), None).unwrap_err(),
        "SEISMIQ_PASSWORD is not set; see the README for how to sign in"
    );
}

#[test]
fn a_client_carries_its_token() {
    let client = SMIQClient::new().authenticate("token".to_string());
    assert_eq!(client.get_token(), "token");
    let configuration = client.api_configuration();
    assert_eq!(configuration.base_path, "https://api.network.quakesaver.net");
    assert_eq!(configuration.oauth_access_token.as_deref(), Some("token"));
    let anonymous = anonymous_configuration();
    assert_eq!(anonymous.base_path, configuration.base_path);
    assert!(anonymous.oauth_access_token.is_none());
}

#[test]
fn every_filter_belongs_to_a_facet() {
    assert_eq!(SensorFilter::Online.facet(), Facet::Status);
    assert_eq!(SensorFilter::Offline.facet(), Facet::Status);
    assert_eq!(SensorFilter::Mems.facet(), Facet::Family);
    assert_eq!(SensorFilter::Hidra.facet(), Facet::Family);
    assert_eq!(SensorFilter::Unknown.facet(), Facet::Family);
    assert_eq!(SensorFilter::Warnings.facet(), Facet::Warnings);
    assert_eq!(FACETS, [Facet::Status, Facet::Family, Facet::Warnings]);
}

#[test]
fn choices_are_spelled_for_the_command_line_and_the_services() {
    assert_eq!(SensorSort::Uid.to_text(), "uid");
    assert_eq!(SensorSort::LastSeen.to_text(), "last-seen");
    assert_eq!(SensorSort::FirstSeen.to_text(), "first-seen");
    assert_eq!(SensorSort::Version.to_text(), "version");
    assert_eq!(SensorSort::Type.to_text(), "type");
    assert_eq!(SensorSort::Warnings.to_text(), "warnings");
    let codes: String = [Quality::D, Quality::R, Quality::Q, Quality::M, Quality::B]
        .iter()
        .map(|quality| quality.to_text())
        .collect();
    assert_eq!(codes, "DRQMB");
    assert_eq!(ActionOptions::Reboot.to_text(), "RebootTrigger");
    assert_eq!(ActionOptions::Blink.to_text(), "LEDPagerTrigger");
    assert_eq!(ActionOptions::CheckUpdate.to_text(), "MenderCheckUpdate");
}

#[test]
fn the_flags_choose_a_route() {
    assert_eq!(chosen_transport(false, false), None);
    assert_eq!(chosen_transport(true, false), Some(Transport::SeedLink));
    assert_eq!(chosen_transport(false, true), Some(Transport::Fdsn));
    assert_eq!(chosen_transport(true, true), Some(Transport::SeedLink));
}
