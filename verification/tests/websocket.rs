use base64::prelude::{Engine, BASE64_STANDARD};
use sqcli::number::Real;
use sqcli::stream::{Chunk, Update};
use sqcli::timestamp::Timestamp;
use sqcli::websocket::{
    chunks_from_traces, decode_channel, decode_traces, default_url, endtime_from, frame_updates,
    parse_endtime, read_message, read_samples, subscription, subscription_of, target,
    unreadable_frame, Action, DataProduct, Event, FrameError, Incoming, ServerMessage, Session,
    Stage, Traces, WAVEFORM_PRODUCT,
};
use std::collections::BTreeMap;
use std::io::Write;

/// Samples the way a sensor sends them: little-endian, base64, gzipped.
fn encode(samples: &[i32], compress: bool) -> String {
    let raw: Vec<u8> = samples.iter().flat_map(|v| v.to_le_bytes()).collect();
    let bytes = if compress {
        let mut encoder = flate2::write::GzEncoder::new(Vec::new(), flate2::Compression::default());
        encoder.write_all(&raw).expect("in-memory write");
        encoder.finish().expect("in-memory finish")
    } else {
        raw
    };
    BASE64_STANDARD.encode(bytes)
}

fn traces(data: BTreeMap<String, String>, compressed: bool, unit: &str) -> Traces {
    Traces {
        data: data.into_iter().collect(),
        delta_t: value_of(0.01),
        endtime: "2026-09-13T12:00:01".to_string(),
        data_unit: Some(unit.to_string()),
        compressed,
    }
}

fn value_of(value: f64) -> Real {
    Real {
        bits: value.to_bits(),
    }
}

/// The samples as the numbers they stand for.
fn numbers(samples: &[Real]) -> Vec<f64> {
    samples
        .iter()
        .map(|sample| f64::from_bits(sample.bits))
        .collect()
}

/// A frame all the way to its chunks, with the spacing worked out.
fn chunks(uid: &str, traces: &Traces) -> Result<Vec<Chunk>, FrameError> {
    let frame = decode_traces(traces)?;
    let delta_t = f64::from_bits(traces.delta_t.bits);
    let spans: Vec<i64> = frame
        .channels
        .iter()
        .map(|(_, samples)| ((samples.len() - 1) as f64 * delta_t * 1e9) as i64)
        .collect();
    Ok(chunks_from_traces(uid, &frame, value_of(1.0 / delta_t), &spans).expect("on the calendar"))
}

fn time(text: &str) -> Timestamp {
    let at = chrono::NaiveDateTime::parse_from_str(text, "%Y-%m-%dT%H:%M:%S%.f")
        .unwrap()
        .and_utc();
    Timestamp {
        seconds: at.timestamp(),
        nanos: at.timestamp_subsec_nanos(),
    }
}

#[test]
fn counts_are_read_as_little_endian_integers() {
    let encoded = encode(&[1, -2, 300_000], false);
    assert_eq!(
        numbers(&decode_channel(&encoded, false, "counts").unwrap()),
        vec![1.0, -2.0, 300_000.0]
    );
}

#[test]
fn gzipped_samples_are_unpacked_first() {
    let encoded = encode(&[7, 8, 9], true);
    assert_eq!(
        numbers(&decode_channel(&encoded, true, "counts").unwrap()),
        vec![7.0, 8.0, 9.0]
    );
}

#[test]
fn ground_motion_arrives_as_floats_rather_than_counts() {
    // The unit decides how the same four bytes are read, so a frame in m/s
    // read as counts would come out as nonsense rather than as an error.
    let raw: Vec<u8> = [1.5f32, -0.25]
        .iter()
        .flat_map(|v| v.to_le_bytes())
        .collect();
    let encoded = BASE64_STANDARD.encode(raw);

    assert_eq!(
        numbers(&decode_channel(&encoded, false, "m/s").unwrap()),
        vec![1.5, -0.25]
    );
    assert_ne!(
        numbers(&decode_channel(&encoded, false, "counts").unwrap()),
        vec![1.5, -0.25]
    );
}

#[test]
fn a_payload_that_is_not_whole_samples_is_rejected() {
    let encoded = BASE64_STANDARD.encode([1u8, 2, 3]);
    assert!(decode_channel(&encoded, false, "counts").is_err());
    assert!(decode_channel("not base64!", false, "counts").is_err());
}

#[test]
fn the_frame_is_stamped_at_its_last_sample() {
    let mut data = BTreeMap::new();
    // Ten samples at 100 Hz span 0.09 s from first to last.
    data.insert("EHZ".to_string(), encode(&[0; 10], true));
    let chunks = chunks("A3B7K9Q2", &traces(data, true, "counts")).unwrap();

    assert_eq!(chunks.len(), 1);
    let chunk = &chunks[0];
    assert_eq!(chunk.sample_rate, value_of(100.0));
    assert_eq!(chunk.samples.len(), 10);
    assert_eq!(chunk.start, time("2026-09-13T12:00:00.91"));
}

#[test]
fn every_channel_of_a_frame_becomes_its_own_panel() {
    let mut data = BTreeMap::new();
    for channel in ["EHE", "EHN", "EHZ"] {
        data.insert(channel.to_string(), encode(&[1, 2, 3], false));
    }
    let chunks = chunks("A3B7K9Q2", &traces(data, false, "counts")).unwrap();

    let ids: Vec<&str> = chunks.iter().map(|c| c.stream_id.as_str()).collect();
    assert_eq!(ids, ["A3B7K9Q2.EHE", "A3B7K9Q2.EHN", "A3B7K9Q2.EHZ"]);
    assert!(chunks
        .iter()
        .all(|c| numbers(&c.samples) == vec![1.0, 2.0, 3.0]));
}

#[test]
fn an_end_time_is_read_with_or_without_a_zone() {
    let bare = parse_endtime("2026-09-13T12:00:01").unwrap();
    assert_eq!(parse_endtime("2026-09-13T12:00:01Z").unwrap(), bare);
    // An offset is carried back to UTC rather than dropped.
    assert_eq!(parse_endtime("2026-09-13T14:00:01+02:00").unwrap(), bare);
    assert!(parse_endtime("some other day").is_err());
}

#[test]
fn a_frame_without_a_sample_spacing_is_rejected() {
    let mut data = BTreeMap::new();
    data.insert("EHZ".to_string(), encode(&[1, 2], false));
    let mut frame = traces(data, false, "counts");
    frame.delta_t = value_of(0.0);

    assert!(chunks("A3B7K9Q2", &frame).is_err());
}

/// What the backend sends, field by field, as the program reads it.
fn message(text: &str) -> ServerMessage {
    let value: serde_json::Value = serde_json::from_str(text).expect("parses");
    let field = |value: &serde_json::Value, name: &str| {
        value
            .get(name)
            .and_then(|held| held.as_str())
            .map(String::from)
    };
    ServerMessage {
        kind: field(&value, "type").unwrap_or_default(),
        status: field(&value, "status"),
        message: field(&value, "message"),
        sensor_uid: field(&value, "sensor_uid"),
        data: value.get("data").map(|data| DataProduct {
            name: field(data, "name").unwrap_or_default(),
            traces: data.get("traces").map(|held| Traces {
                data: held["data"]
                    .as_object()
                    .unwrap()
                    .iter()
                    .map(|(channel, text)| (channel.clone(), text.as_str().unwrap().to_string()))
                    .collect(),
                delta_t: value_of(held["delta_t"].as_f64().unwrap()),
                endtime: field(held, "endtime").unwrap(),
                data_unit: field(held, "data_unit"),
                compressed: held["compressed"].as_bool().unwrap_or(false),
            }),
        }),
    }
}

#[test]
fn a_data_frame_is_recognised_by_its_shape() {
    // The exact wire format the backend sends, so a rename upstream shows
    // up here rather than as an empty screen.
    let text = r#"{"type":"data","topic":"data_product","sensor_uid":"A3B7K9Q2",
            "data":{"name":"WaveformData","traces":{"data":{"EHZ":"AAAAAA=="},
            "delta_t":0.01,"endtime":"2026-09-13T12:00:01","data_unit":"counts",
            "compressed":false}}}"#;
    let message = message(text);

    assert_eq!(message.kind, "data");
    assert_eq!(message.sensor_uid.as_deref(), Some("A3B7K9Q2"));
    let product = message.data.clone().expect("a data product");
    assert_eq!(product.name, WAVEFORM_PRODUCT);
    assert!(product.traces.is_some());

    match read_message("another", message) {
        Incoming::Waveform { uid, traces } => {
            assert_eq!(uid, "A3B7K9Q2");
            assert_eq!(
                numbers(&chunks(&uid, &traces).unwrap()[0].samples),
                vec![0.0]
            );
        }
        other => panic!("{:?}", other),
    }
}

#[test]
fn a_refusal_from_the_backend_is_readable() {
    let text = r#"{"type":"status","status":"ERROR","message":"no permission"}"#;
    let mut message = message(text);

    assert_eq!(message.kind, "status");
    assert_eq!(message.status.as_deref(), Some("ERROR"));
    assert_eq!(message.message.as_deref(), Some("no permission"));

    assert_eq!(
        read_message("A3", message.clone()),
        Incoming::Refused("the backend refused the subscription: no permission".into())
    );
    message.message = None;
    assert_eq!(
        read_message("A3", message.clone()),
        Incoming::Refused("the backend refused the subscription: no reason given".into())
    );
    message.status = Some("OK".into());
    assert_eq!(read_message("A3", message.clone()), Incoming::Ignored);
    message.status = None;
    assert_eq!(read_message("A3", message), Incoming::Ignored);
}

#[test]
fn only_waveforms_are_taken_out_of_a_message() {
    let mut frame = message(
        r#"{"type":"data","data":{"name":"WaveformData","traces":{"data":{},"delta_t":1.0,
            "endtime":"x","compressed":true}}}"#,
    );
    match read_message("A3", frame.clone()) {
        // A frame that names no sensor is the one that was asked for.
        Incoming::Waveform { uid, traces } => {
            assert_eq!(uid, "A3");
            assert_eq!(traces.data_unit, None);
            assert!(traces.compressed);
        }
        other => panic!("{:?}", other),
    }
    frame.data.as_mut().unwrap().name = "EventRecord".into();
    assert_eq!(read_message("A3", frame.clone()), Incoming::Ignored);
    frame.data = Some(DataProduct {
        name: WAVEFORM_PRODUCT.into(),
        traces: None,
    });
    assert_eq!(read_message("A3", frame.clone()), Incoming::Ignored);
    frame.data = None;
    assert_eq!(read_message("A3", frame), Incoming::Ignored);
}

#[test]
fn a_frame_says_why_it_cannot_be_used() {
    let one = |encoded: String| BTreeMap::from([("EHZ".to_string(), encoded)]);
    let good = encode(&[1], false);

    for spacing in [0.0, -0.0, -1.0, f64::NEG_INFINITY] {
        let mut frame = traces(one(good.clone()), false, "counts");
        frame.delta_t = value_of(spacing);
        let error = decode_traces(&frame).unwrap_err();
        assert_eq!(error, FrameError::Spacing);
    }
    assert_eq!(
        FrameError::Spacing.to_text("-1"),
        "frame states an impossible sample spacing of -1"
    );
    // No number is not an impossible spacing.
    let mut frame = traces(one(good.clone()), false, "counts");
    frame.delta_t = value_of(f64::NAN);
    assert!(decode_traces(&frame).is_ok());

    let mut frame = traces(one(good), false, "counts");
    frame.endtime = "some \"other\" day".into();
    let error = decode_traces(&frame).unwrap_err();
    assert_eq!(
        error.to_text(""),
        "cannot read the frame's end time \"some \\\"other\\\" day\": input contains invalid characters"
    );

    let error = decode_traces(&traces(one("not base64!".into()), false, "counts")).unwrap_err();
    assert!(matches!(error, FrameError::Base64(_)));
    assert!(error
        .to_text("")
        .starts_with("a channel's samples were not valid base64: Invalid symbol"));

    let error = decode_traces(&traces(one(encode(&[1; 6], false)), true, "counts")).unwrap_err();
    assert!(matches!(error, FrameError::Gzip(_)));
    assert_eq!(
        error.to_text(""),
        "a channel's samples would not decompress: invalid gzip header"
    );

    let error =
        decode_traces(&traces(one(BASE64_STANDARD.encode([1u8; 6])), false, "counts")).unwrap_err();
    assert_eq!(error, FrameError::Ragged(6));
    assert_eq!(
        error.to_text(""),
        "a channel carried 6 bytes, not a whole number of samples"
    );
}

#[test]
fn the_first_unreadable_channel_spoils_a_frame() {
    let data = BTreeMap::from([
        ("A".to_string(), encode(&[1], false)),
        ("B".to_string(), BASE64_STANDARD.encode([1u8; 5])),
        ("C".to_string(), "?".to_string()),
    ]);
    assert_eq!(
        decode_traces(&traces(data, false, "counts")).unwrap_err(),
        FrameError::Ragged(5)
    );
}

#[test]
fn a_channel_without_samples_is_left_out() {
    let data = BTreeMap::from([
        ("EHE".to_string(), String::new()),
        ("EHZ".to_string(), encode(&[4], false)),
    ]);
    let frame = decode_traces(&traces(data, false, "counts")).unwrap();
    assert_eq!(frame.channels.len(), 1);
    assert_eq!(frame.channels[0].0, "EHZ");
}

#[test]
fn a_frame_without_a_unit_holds_counts() {
    let mut frame = traces(
        BTreeMap::from([("EHZ".to_string(), encode(&[-7], true))]),
        true,
        "ignored",
    );
    frame.data_unit = None;
    assert_eq!(
        numbers(&decode_traces(&frame).unwrap().channels[0].1),
        vec![-7.0]
    );
}

#[test]
fn what_a_sensor_writes_is_read_back() {
    let counts = [0, 1, -1, i32::MAX, i32::MIN, 0x0102_0304];
    let bytes: Vec<u8> = counts.iter().flat_map(|v| v.to_le_bytes()).collect();
    let expected: Vec<f64> = counts.iter().map(|count| *count as f64).collect();
    assert_eq!(numbers(&read_samples(&bytes, "counts").unwrap()), expected);

    let motion = [0.0f32, -0.0, 1.5, -0.25, f32::MIN_POSITIVE, 1e-45, f32::MAX, f32::INFINITY];
    let bytes: Vec<u8> = motion.iter().flat_map(|v| v.to_le_bytes()).collect();
    let expected: Vec<u64> = motion.iter().map(|v| (*v as f64).to_bits()).collect();
    for unit in ["m/s", "Counts", ""] {
        let read: Vec<u64> = read_samples(&bytes, unit)
            .unwrap()
            .iter()
            .map(|sample| sample.bits)
            .collect();
        assert_eq!(read, expected);
    }
    assert_eq!(numbers(&read_samples(&vec![0x04, 0x03, 0x02, 0x01], "counts").unwrap()), [16_909_060.0]);
    assert_eq!(
        read_samples(&vec![0; 7], "counts"),
        Err(FrameError::Ragged(7))
    );
}

#[test]
fn what_was_read_of_an_end_time_decides() {
    let a = time("2026-09-13T12:00:01");
    let b = time("2026-09-13T12:00:02.5");
    let bad = || Err("bad".to_string());
    assert_eq!(endtime_from("t", Some(a), Ok(b)), Ok(a));
    assert_eq!(endtime_from("t", Some(a), bad()), Ok(a));
    assert_eq!(endtime_from("t", None, Ok(b)), Ok(b));
    assert_eq!(
        endtime_from("t", None, bad()),
        Err(FrameError::Endtime {
            text: "t".into(),
            reason: "bad".into()
        })
    );
    assert_eq!(parse_endtime("2026-09-13T12:00:02.500zZ").unwrap(), b);
}

#[test]
fn a_channel_that_begins_off_the_calendar_has_no_chunk() {
    let mut frame = traces(
        BTreeMap::from([("EHZ".to_string(), encode(&[1, 2], false))]),
        false,
        "counts",
    );
    frame.endtime = "-262143-01-01T00:00:00".into();
    let frame = decode_traces(&frame).unwrap();
    assert!(chunks_from_traces("A", &frame, value_of(1.0), &vec![1]).is_none());
    assert!(chunks_from_traces("A", &frame, value_of(1.0), &vec![0]).is_some());
}

#[test]
fn a_bad_frame_is_noticed_and_a_good_one_is_shown() {
    let notice = frame_updates(Err(FrameError::Spacing), "0");
    assert_eq!(
        notice,
        [Update::Notice(
            "skipped a frame: frame states an impossible sample spacing of 0".into()
        )]
    );
    let data = BTreeMap::from([
        ("A".to_string(), encode(&[1], false)),
        ("B".to_string(), encode(&[2], false)),
    ]);
    let chunks = chunks("S", &traces(data, false, "counts")).unwrap();
    let expected: Vec<Update> = chunks.iter().cloned().map(Update::Data).collect();
    assert_eq!(frame_updates(Ok(chunks), ""), expected);
    assert_eq!(
        unreadable_frame("eof"),
        Update::Notice("unreadable frame: eof".into())
    );
}

#[test]
fn the_subscription_names_the_sensor_as_json_does() {
    assert_eq!(
        subscription("A3B7K9Q2"),
        r#"{"data_product_name":"WaveformData","method":"subscribe","sensor_uids":["A3B7K9Q2"],"topic":"data_product","type":"request"}"#
    );
    let value: serde_json::Value = serde_json::from_str(&subscription("a\"\\\n")).unwrap();
    assert_eq!(value["sensor_uids"][0], "a\"\\\n");
    assert_eq!(value["data_product_name"], WAVEFORM_PRODUCT);
    assert_eq!(value["type"], "request");
    assert_eq!(value["topic"], "data_product");
    assert_eq!(value["method"], "subscribe");
    assert_eq!(subscription_of("\"x\""), subscription("x"));
}

#[test]
fn the_websocket_is_opened_with_the_token() {
    assert_eq!(
        target(&default_url(), "abc"),
        "wss://api.network.quakesaver.net/api/v1/ws?token=abc"
    );
}

#[test]
fn a_connection_subscribes_and_asks_before_it_streams() {
    let mut session = Session::open("A3".into());
    assert_eq!(
        session.step(Event::Opened),
        Action::Send(subscription("A3"))
    );
    assert_eq!(session.step(Event::Sent), Action::Ask);
    assert_eq!(
        session.step(Event::Asked),
        Action::Report(Update::Connected {
            server: "backend websocket".into(),
            station: "A3".into()
        })
    );
    assert_eq!(session.stage, Stage::Streaming);
    // Asking again is quiet where it works, and only noticed where it does not.
    assert_eq!(session.step(Event::Asked), Action::Wait);
    assert_eq!(
        session.step(Event::NotAsked("busy".into())),
        Action::Report(Update::Notice(
            "could not ask A3 to start streaming: busy".into()
        ))
    );
    // The sensor is asked again whenever it is time to.
    assert_eq!(session.step(Event::Due), Action::Ask);
    assert_eq!(session.step(Event::Asked), Action::Wait);
    assert_eq!(session.step(Event::Due), Action::Ask);
    assert_eq!(
        session.step(Event::Text("{}".into())),
        Action::Read("{}".into())
    );
    assert_eq!(
        session.step(Event::Binary(vec![b'{', 0xff])),
        Action::Read("{\u{fffd}".into())
    );
    assert_eq!(session.step(Event::Control), Action::Wait);
    assert_eq!(session.stage, Stage::Streaming);
    assert_eq!(
        session.step(Event::Closed),
        Action::Fail("the backend closed the websocket".into())
    );
    assert_eq!(
        session.step(Event::Dropped("reset".into())),
        Action::Fail("the websocket dropped: reset".into())
    );
}

#[test]
fn a_connection_says_why_it_did_not_come_about() {
    let mut session = Session::open("A3".into());
    assert_eq!(
        session.step(Event::NotOpened("HTTP error: 403 Forbidden".into())),
        Action::Fail(
            "the backend refused the websocket (403); the access token was not accepted, so \
             check SEISMIQ_USERNAME and SEISMIQ_PASSWORD"
                .into()
        )
    );
    assert_eq!(
        session.step(Event::NotOpened("timed out".into())),
        Action::Fail("could not open the websocket to the backend: timed out".into())
    );
    session.step(Event::Opened);
    assert_eq!(
        session.step(Event::NotSent("reset".into())),
        Action::Fail("could not subscribe to the sensor's waveforms: reset".into())
    );
    session.step(Event::Sent);
    assert_eq!(
        session.step(Event::NotAsked("offline".into())),
        Action::Fail("could not ask A3 to start streaming: offline".into())
    );
}

#[test]
fn a_message_decides_what_the_connection_does() {
    let mut session = Session::open("A3".into());
    for event in [Event::Opened, Event::Sent, Event::Asked] {
        session.step(event);
    }
    let refusal = message(r#"{"type":"status","status":"ERROR","message":"no permission"}"#);
    assert_eq!(
        session.step(Event::Message(refusal)),
        Action::Fail("the backend refused the subscription: no permission".into())
    );
    let status = message(r#"{"type":"status","status":"OK"}"#);
    assert_eq!(session.step(Event::Message(status)), Action::Wait);
    let frame = message(
        r#"{"type":"data","data":{"name":"WaveformData","traces":{"data":{},"delta_t":1.0,
            "endtime":"x"}}}"#,
    );
    match session.step(Event::Message(frame)) {
        Action::Unpack { uid, traces } => assert_eq!((uid.as_str(), traces.data.len()), ("A3", 0)),
        other => panic!("{:?}", other),
    }
    assert_eq!(
        session.step(Event::Unreadable("eof".into())),
        Action::Report(Update::Notice("unreadable frame: eof".into()))
    );
    assert_eq!(session.stage, Stage::Streaming);
}

#[test]
fn channels_stay_in_order_and_apart() {
    let data = BTreeMap::from([
        ("EHZ".to_string(), encode(&[1], false)),
        ("EHE".to_string(), encode(&[2], false)),
        ("EHN".to_string(), String::new()),
        ("".to_string(), encode(&[3], false)),
    ]);
    let frame = traces(data, false, "counts");
    let names: Vec<String> = decode_traces(&frame)
        .unwrap()
        .channels
        .into_iter()
        .map(|(name, _)| name)
        .collect();
    assert_eq!(names, ["", "EHE", "EHZ"]);
    let ids: Vec<String> = chunks("S", &frame)
        .unwrap()
        .into_iter()
        .map(|chunk| chunk.stream_id)
        .collect();
    assert_eq!(ids, ["S.", "S.EHE", "S.EHZ"]);
}
