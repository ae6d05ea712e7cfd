use sqcli::mseed::RecordHeader;
use sqcli::number::Real;
use sqcli::seedlink::{
    carries_record, check_greeting, check_reply, chunk_from_record, command_line,
    handshake_timed_out, packet_kind, read_info, read_line, record_update, station_names,
    Event, Handshake, PacketKind, Reading, Source, SourceError, Stage, Step,
    MAX_INFO_PACKETS, PACKET_LEN,
};
use sqcli::stream::{connection_ended, Update};
use sqcli::timestamp::Timestamp;

#[test]
fn a_uid_goes_to_the_network_and_an_address_to_the_sensor() {
    // Sensor UIDs are letters and digits, so a dot or a colon is the thing
    // that tells an address apart from one.
    assert_eq!(
        Source::from_arg("A3B7K9Q2").unwrap(),
        Source::Network {
            uid: "A3B7K9Q2".into()
        }
    );
    assert_eq!(
        Source::from_arg("192.168.178.55").unwrap(),
        Source::Sensor {
            host: "192.168.178.55".into()
        }
    );
    assert_eq!(
        Source::from_arg("qssensor.local").unwrap(),
        Source::Sensor {
            host: "qssensor.local".into()
        }
    );
    assert!(Source::from_arg("").is_err());
    assert!(Source::from_arg("not a sensor").is_err());
}

#[test]
fn the_network_server_is_only_dialled_for_a_uid() {
    let network = Source::from_arg("A3B7K9Q2").unwrap();
    assert_eq!(
        network.address("seedlink.example.net", 18000),
        ("seedlink.example.net".to_string(), 18000)
    );

    let sensor = Source::from_arg("192.168.178.55").unwrap();
    assert_eq!(
        sensor.address("seedlink.example.net", 18000),
        ("192.168.178.55".to_string(), 18000)
    );
}

#[test]
fn a_port_in_the_address_wins_over_the_default() {
    let sensor = Source::from_arg("192.168.178.55:18010").unwrap();
    assert_eq!(
        sensor.address("ignored", 18000),
        ("192.168.178.55".to_string(), 18010)
    );
}

#[test]
fn a_sensor_is_asked_for_its_own_station() {
    // A sensor serves only itself, so `*` saves us knowing how its station
    // code was configured. The network server serves many and needs naming.
    assert_eq!(Source::from_arg("10.0.0.5").unwrap().station(), "*");
    assert_eq!(Source::from_arg("A3B7K9Q2").unwrap().station(), "A3B7K9Q2");
}

#[test]
fn station_names_are_picked_out_of_the_info_answer() {
    let xml = r#"<?xml version="1.0"?><seedlink software="SeedLink v3.0" organization="QuakeSaver">
            <station name="A3B7K9Q2" network="QS" description="one" begin_seq="0" end_seq="1" />
            <station name="XYZ12345" network="QS" description="two" begin_seq="0" end_seq="1" />
            </seedlink>"#;

    assert_eq!(station_names(xml), ["A3B7K9Q2", "XYZ12345"]);
}

#[test]
fn an_empty_station_list_is_not_mistaken_for_a_station() {
    let xml = r#"<?xml version="1.0"?><seedlink software="SeedLink v3.0"></seedlink>"#;
    assert!(station_names(xml).is_empty());
}

#[test]
fn a_station_without_a_closed_name_is_left_out() {
    assert!(station_names("<station network=\"QS\" />").is_empty());
    assert!(station_names("<station name=\"A3").is_empty());
    assert!(station_names("name=\"A3\"").is_empty());
    // The first name of an element counts, and what follows its quote does not.
    assert_eq!(
        station_names("<station name=\"A\" name=\"B\"/><station name=\"\"/>"),
        ["A", ""]
    );
}

#[test]
fn a_source_is_read_without_the_white_space_around_it() {
    assert_eq!(
        Source::from_arg("  A3B7K9Q2\t\n").unwrap(),
        Source::Network {
            uid: "A3B7K9Q2".into()
        }
    );
    assert_eq!(
        Source::from_arg("\u{2003}10.0.0.5\u{3000}").unwrap(),
        Source::Sensor {
            host: "10.0.0.5".into()
        }
    );
    assert_eq!(Source::from_arg(" \u{a0} ").unwrap_err(), SourceError::NoSensor);
    assert_eq!(
        Source::from_arg(" Ä7 ").unwrap_err(),
        SourceError::Neither("Ä7".to_string())
    );
}

#[test]
fn a_source_error_says_what_is_wrong() {
    assert_eq!(SourceError::NoSensor.to_text(), "no sensor given");
    assert_eq!(
        Source::from_arg("not \"a\" sensor").unwrap_err().to_text(),
        "\"not \\\"a\\\" sensor\" is neither a sensor UID nor an address, expected letters and \
         digits or a host like 192.168.1.20"
    );
}

#[test]
fn only_a_number_of_sixteen_bits_is_a_port() {
    let dial = |arg: &str| Source::from_arg(arg).unwrap().address("ignored", 18000);
    assert_eq!(dial("host.lan:65535"), ("host.lan".to_string(), 65535));
    assert_eq!(dial("host.lan:65536"), ("host.lan:65536".to_string(), 18000));
    assert_eq!(dial("host.lan:+80"), ("host.lan".to_string(), 80));
    assert_eq!(dial("host.lan:-80"), ("host.lan:-80".to_string(), 18000));
    assert_eq!(dial("host.lan:"), ("host.lan:".to_string(), 18000));
    assert_eq!(dial("host.lan:+"), ("host.lan:+".to_string(), 18000));
    assert_eq!(dial("host.lan:000080"), ("host.lan".to_string(), 80));
    assert_eq!(dial("host.lan: 80"), ("host.lan: 80".to_string(), 18000));
}

#[test]
fn a_port_is_read_as_the_standard_library_reads_it() {
    for text in [
        "0", "00", "1", "65535", "65536", "99999999999999999999", "+1", "-0", "-1", "", "+", "1x",
        "x", "１", " 1", "1 ", "+65535", "++1", "0x10",
    ] {
        let arg = format!("a.b:{}", text);
        let expected = match text.parse::<u16>() {
            Ok(port) => ("a.b".to_string(), port),
            Err(_) => (arg.trim().to_string(), 7),
        };
        if arg.trim() == arg {
            assert_eq!(Source::from_arg(&arg).unwrap().address("ignored", 7), expected);
        }
    }
}

#[test]
fn a_command_is_answered_with_ok_or_not_at_all() {
    assert_eq!(command_line("DATA"), "DATA\r\n");
    assert_eq!(check_reply("DATA", "OK"), Ok(()));
    assert_eq!(
        check_reply("STATION *", "ERROR"),
        Err("the server refused \"STATION *\"".to_string())
    );
    assert_eq!(
        check_reply("DATA", "ok"),
        Err("the server answered \"DATA\" with \"ok\", which is not SeedLink".to_string())
    );
}

#[test]
fn a_line_is_read_without_its_line_end() {
    assert_eq!(read_line(&b"SeedLink v3.1\r\n".to_vec()).unwrap(), "SeedLink v3.1");
    assert_eq!(read_line(&b"\n\rOK \r\n\n".to_vec()).unwrap(), "OK ");
    assert_eq!(read_line(&vec![b'a', 0xff, b'\n']).unwrap(), "a\u{fffd}");
    assert_eq!(
        read_line(&Vec::new()).unwrap_err(),
        "the server closed the connection during the handshake"
    );
}

#[test]
fn a_server_has_to_call_itself_seedlink() {
    assert_eq!(check_greeting("SeedLink v3.0"), Ok(()));
    assert_eq!(
        check_greeting("HTTP/1.1"),
        Err("\"HTTP/1.1\" does not look like a SeedLink server".to_string())
    );
}

fn packet(lead: &[u8], text: &str) -> Vec<u8> {
    let mut bytes = lead.to_vec();
    bytes.resize(8, b' ');
    bytes.extend_from_slice(text.as_bytes());
    bytes.resize(PACKET_LEN, 0);
    bytes
}

#[test]
fn packets_are_told_apart_by_how_they_begin() {
    assert_eq!(packet_kind(&packet(b"SLINFO *", "")), PacketKind::Info);
    assert_eq!(packet_kind(&packet(b"SL00001A", "")), PacketKind::Record);
    assert_eq!(packet_kind(&packet(b"ERROR", "")), PacketKind::Foreign);
    assert_eq!(packet_kind(b"S"), PacketKind::Foreign);
    assert_eq!(packet_kind(b"SL"), PacketKind::Record);
    assert_eq!(carries_record(&packet(b"SLINFO *", "")), Ok(false));
    assert_eq!(carries_record(&packet(b"SL00001A", "")), Ok(true));
    assert_eq!(
        carries_record(&packet(b"GARBAGE!", "")),
        Err("the server sent something that is not a SeedLink packet".to_string())
    );
}

#[test]
fn an_info_packet_is_read_without_its_padding() {
    assert_eq!(read_info(&packet(b"SLINFO *", "<a>\0<b>")), "<a><b>");
}

/// Runs a conversation over the lines and packets of a server, and returns what
/// was sent and how it ended.
fn converse(source: Source, host: &str, events: Vec<Event>) -> (Vec<String>, Stage, Step) {
    let (mut handshake, hello) = Handshake::open(source, host.to_string());
    let mut sent = vec![hello];
    let mut last = Step::Read;
    for event in events {
        assert_eq!(
            handshake.awaits_packet(),
            !matches!(event, Event::Line(_)) && matches!(handshake.stage, Stage::Listing { .. })
        );
        let (next, step) = handshake.step(event);
        handshake = next;
        match &step {
            Step::Send(line) => sent.push(line.clone()),
            Step::Begin { line, .. } => sent.push(line.clone()),
            _ => {}
        }
        last = step;
    }
    (sent, handshake.stage, last)
}

fn line(text: &str) -> Event {
    Event::Line(format!("{}\r\n", text).into_bytes())
}

fn network(uid: &str) -> Source {
    Source::Network { uid: uid.into() }
}

#[test]
fn a_conversation_ends_in_packets() {
    let list = packet(b"SLINFO *", "<seedlink><station name=\"A3B7K9Q2\"/></seedlink>");
    let (sent, stage, last) = converse(
        network("A3B7K9Q2"),
        "relay",
        vec![
            line("SeedLink v3.0"),
            line("QuakeSaver"),
            Event::Packet(list),
            line("OK"),
            line("OK"),
        ],
    );
    assert_eq!(
        sent,
        [
            "HELLO\r\n",
            "INFO STATIONS\r\n",
            "STATION A3B7K9Q2\r\n",
            "DATA\r\n",
            "END\r\n"
        ]
    );
    assert_eq!(stage, Stage::Streaming);
    assert_eq!(
        last,
        Step::Begin {
            line: "END\r\n".into(),
            server: "SeedLink v3.0".into(),
            station: "A3B7K9Q2".into()
        }
    );
}

#[test]
fn a_list_in_two_packets_names_the_sensor_of_its_own_server() {
    let first = packet(b"SLINFO *", "<seedlink><station name=\"AB");
    let second = packet(b"SLINFO  ", "CD\"/></seedlink>");
    let (sent, _, last) = converse(
        Source::Sensor {
            host: "10.0.0.5".into(),
        },
        "10.0.0.5",
        vec![
            line("SeedLink v3.0"),
            line("me"),
            Event::Packet(first),
            Event::Packet(second),
            line("OK"),
            line("OK"),
        ],
    );
    assert_eq!(sent[2], "STATION *\r\n");
    assert_eq!(
        last,
        Step::Begin {
            line: "END\r\n".into(),
            server: "SeedLink v3.0".into(),
            station: "ABCD".into()
        }
    );
}

#[test]
fn a_server_that_lists_other_sensors_is_given_up() {
    let list = packet(
        b"SLINFO *",
        "<seedlink><station name=\"X1\"/><station name=\"X2\"/></seedlink>",
    );
    let greeting = vec![line("SeedLink"), line("org")];
    let mut events = greeting.clone();
    events.push(Event::Packet(list));
    let (_, stage, last) = converse(network("A3"), "relay", events);
    assert_eq!(stage, Stage::Over);
    assert_eq!(
        last,
        Step::Fail("relay does not serve sensor A3; it offers X1, X2".into())
    );

    let mut events = greeting.clone();
    events.push(Event::Packet(packet(b"SLINFO *", "</seedlink>")));
    let (_, _, last) = converse(network("A3"), "relay", events);
    assert_eq!(
        last,
        Step::Fail(
            "relay serves no sensors to this machine. The network server recognises an account \
             by the address it connects from, so add this machine's public IP under Waveforms > \
             Network SeedLink Server, or point sqcli at a sensor on your own network instead."
                .into()
        )
    );

    // A list that could not be read says nothing either way.
    for unread in [
        Event::Packet(packet(b"SL000001", "")),
        Event::Lost("the connection dropped".into()),
    ] {
        let mut events = greeting.clone();
        events.push(unread);
        let (sent, _, last) = converse(network("A3"), "relay", events);
        assert_eq!(sent[2], "STATION A3\r\n");
        assert_eq!(last, Step::Send("STATION A3\r\n".into()));
    }
}

#[test]
fn a_list_that_never_ends_is_cut_off() {
    let mut events = vec![line("SeedLink"), line("org")];
    for _ in 0..MAX_INFO_PACKETS {
        events.push(Event::Packet(packet(b"SLINFO *", "<station name=\"A3\"/>")));
    }
    let (_, _, last) = converse(network("A3"), "relay", events);
    assert_eq!(last, Step::Send("STATION A3\r\n".into()));
}

#[test]
fn a_conversation_fails_where_the_server_does_not_play_along() {
    let fails = |events: Vec<Event>| match converse(network("A3"), "relay", events).2 {
        Step::Fail(reason) => reason,
        other => panic!("{:?}", other),
    };
    assert_eq!(
        fails(vec![Event::Line(Vec::new())]),
        "the server closed the connection during the handshake"
    );
    assert_eq!(
        fails(vec![line("HTTP"), line("org")]),
        "\"HTTP\" does not look like a SeedLink server"
    );
    assert_eq!(fails(vec![Event::Lost("reset".into())]), "reset");
    let lost = Event::Lost("x".into());
    assert_eq!(
        fails(vec![line("SeedLink"), line("org"), lost.clone(), line("ERROR")]),
        "the server refused \"STATION A3\""
    );
    assert_eq!(
        fails(vec![
            line("SeedLink"),
            line("org"),
            lost,
            line("OK"),
            line("what")
        ]),
        "the server answered \"DATA\" with \"what\", which is not SeedLink"
    );
}

fn header() -> RecordHeader {
    RecordHeader {
        network: "QS".into(),
        station: "BLA".into(),
        location: "".into(),
        channel: "HHZ".into(),
        start: Timestamp {
            seconds: 1_788_220_800,
            nanos: 0,
        },
        length: 512,
        samples: 2,
        sample_rate: Real {
            bits: 100.0f64.to_bits(),
        },
        data_offset: 64,
        encoding: Some(11),
        data_big_endian: true,
    }
}

#[test]
fn a_record_becomes_a_chunk_of_its_stream() {
    let reading = |samples| Reading::Record {
        header: header(),
        samples,
    };
    let samples = || vec![Real::from_count(1), Real::from_count(-2)];
    let chunk = chunk_from_record(reading(Ok(samples())))
        .unwrap()
        .unwrap();
    assert_eq!(chunk.stream_id, "QS.BLA..HHZ");
    assert_eq!(chunk.channel, "HHZ");
    assert_eq!(chunk.start, header().start);
    assert_eq!(chunk.sample_rate, header().sample_rate);
    assert_eq!(chunk.samples, samples());
    assert_eq!(
        record_update(reading(Ok(samples()))),
        Some(Update::Data(chunk))
    );
    // Log and status records carry no samples.
    assert_eq!(chunk_from_record(reading(Ok(vec![]))), Ok(None));
    assert_eq!(record_update(reading(Ok(vec![]))), None);
}

#[test]
fn an_unreadable_record_is_only_noticed() {
    assert_eq!(
        record_update(Reading::Record {
            header: header(),
            samples: Err("bad encoding".into())
        }),
        Some(Update::Notice("skipped a record: bad encoding".into()))
    );
    assert_eq!(
        record_update(Reading::Partial),
        Some(Update::Notice(
            "skipped a record: a packet held less than a whole record".into()
        ))
    );
    assert_eq!(
        chunk_from_record(Reading::Unreadable("no header".into())),
        Err("no header".into())
    );
    assert_eq!(
        record_update(Reading::Unreadable("no header".into())),
        Some(Update::Notice("skipped a record: no header".into()))
    );
}

#[test]
fn an_unreachable_server_is_explained() {
    let sensor = Source::from_arg("10.0.0.5").unwrap();
    assert_eq!(
        sqcli::seedlink::unreachable(&sensor, "10.0.0.5", 18000, "refused"),
        "could not reach 10.0.0.5:18000 (refused). A sensor only serves SeedLink once it is \
         started under Waveform access > SeedLink Server in its web interface."
    );
    assert_eq!(
        sqcli::seedlink::unreachable(&network("A3"), "relay", 7, "refused"),
        "could not reach relay:7: refused"
    );
    assert_eq!(
        handshake_timed_out("relay"),
        "relay accepted the connection but did not finish the SeedLink handshake within 15s"
    );
}

#[test]
fn a_connection_is_opened_again_unless_the_view_is_gone() {
    assert_eq!(connection_ended(Ok(())), None);
    assert_eq!(
        connection_ended(Err("gone".into())),
        Some(Update::Disconnected("gone".into()))
    );
}

#[test]
fn no_uid_is_mistaken_for_an_address() {
    for uid in ["A", "0", "A3B7K9Q2", "zzz999"] {
        assert!(matches!(Source::from_arg(uid), Ok(Source::Network { .. })));
    }
    for address in [".", ":", "A.B", "A:B", "a b.c", "fe80::1"] {
        assert!(matches!(Source::from_arg(address), Ok(Source::Sensor { .. })));
    }
}

#[test]
fn a_station_name_ends_at_its_quote() {
    for name in station_names("<station name=\"a\"b\"/><station name=\"c'd\" x=\"y\"/>") {
        assert!(!name.contains('"'));
    }
}
