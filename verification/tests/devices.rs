use sqcli::api::Listing;
use sqcli::devices::{
    address_text, device_from_fields, device_table, device_type_from_machine, parse_device,
    present_results, sort_devices, Device,
};
use sqcli::seedlink::{Source, SourceError};
use sqcli::stream::Transport;
use sqcli::watch::{account_fault, needs_account, plan_watch, WatchError};

#[test]
fn a_machine_is_called_by_its_product() {
    assert_eq!(device_type_from_machine(Some("orange-pi-zero")), "MEMS");
    assert_eq!(device_type_from_machine(Some("raspberrypi4")), "HiDRA");
    assert_eq!(device_type_from_machine(Some("my orange-pi")), "my orange-pi");
    assert_eq!(device_type_from_machine(None), "unknown");
}

#[test]
fn a_device_is_read_out_of_its_answer() {
    let device = parse_device(
        0xc0a8_b237,
        r#"{"hostname": "A3B7K9Q2", "ringnes": "dev", "machine": "orange-pi-zero"}"#,
    );
    assert_eq!(device.address, 0xc0a8_b237);
    assert_eq!(device.uuid, "A3B7K9Q2");
    assert_eq!(device.version, "dev");
    assert_eq!(device.device_type, "MEMS");
}

#[test]
fn what_a_device_does_not_say_is_unknown() {
    for body in ["", "no json", "[]", "{}", r#"{"hostname": 7}"#, "null"] {
        let device = parse_device(1, body);
        assert_eq!(device.uuid, "unknown");
        assert_eq!(device.version, "unknown");
        assert_eq!(device.device_type, "unknown");
    }
    let device = device_from_fields(1, None, Some("2".into()), Some("x".into()));
    assert_eq!(
        (
            device.uuid.as_str(),
            device.version.as_str(),
            device.device_type.as_str()
        ),
        ("unknown", "2", "x")
    );
}

#[test]
fn an_address_is_spelled_in_octets() {
    for (address, text) in [
        (0, "0.0.0.0"),
        (1, "0.0.0.1"),
        (0xc0a8_b237, "192.168.178.55"),
        (0x0a00_0005, "10.0.0.5"),
        (u32::MAX, "255.255.255.255"),
    ] {
        assert_eq!(address_text(address), text);
    }
}

#[test]
fn devices_are_listed_by_address() {
    let results = vec![
        (
            0xc0a8_b259,
            r#"{"ringnes": "dev", "machine": "raspberrypi4"}"#.to_string(),
        ),
        (
            0xc0a8_b237,
            r#"{"hostname": "A3B7K9Q2", "ringnes": "dev", "machine": "orange-pi"}"#.to_string(),
        ),
    ];
    let expected = Listing::Table {
        header: vec!["IP ADDRESS", "UUID", "VERSION", "TYPE"],
        rows: vec![
            vec!["192.168.178.55", "A3B7K9Q2", "dev", "MEMS"],
            vec!["192.168.178.89", "unknown", "dev", "HiDRA"],
        ]
        .into_iter()
        .map(|cells| cells.into_iter().map(String::from).collect())
        .collect(),
    };
    assert_eq!(present_results(&results), expected);
    assert_eq!(
        present_results(&vec![]),
        Listing::Nothing("no devices detected")
    );
}

#[test]
fn devices_at_one_address_keep_their_order() {
    let device = |address: u32, uuid: &str| Device {
        address,
        uuid: uuid.into(),
        version: String::new(),
        device_type: String::new(),
    };
    let mut devices = vec![device(2, "b"), device(1, "c"), device(2, "a")];
    sort_devices(&mut devices);
    let cells: Vec<String> = device_table(&devices)
        .iter()
        .map(|row| row[..2].join(" "))
        .collect();
    assert_eq!(cells, ["0.0.0.1 c", "0.0.0.2 b", "0.0.0.2 a"]);
}

#[test]
fn a_uid_goes_through_the_backend_unless_told_otherwise() {
    let plan = plan_watch(" A3B7K9Q2 ", None).unwrap();
    assert_eq!(plan.transport, Transport::WebSocket);
    assert_eq!(plan.uid, "A3B7K9Q2");
    assert_eq!(plan.label, "A3B7K9Q2 · websocket");
    assert_eq!(
        plan.source,
        Source::Network {
            uid: "A3B7K9Q2".into()
        }
    );
    for transport in [Transport::SeedLink, Transport::Fdsn, Transport::WebSocket] {
        assert_eq!(
            plan_watch("A3B7K9Q2", Some(transport)).unwrap().transport,
            transport
        );
    }
}

#[test]
fn an_address_is_read_straight_from_the_sensor() {
    for chosen in [None, Some(Transport::SeedLink)] {
        let plan = plan_watch("192.168.178.55", chosen).unwrap();
        assert_eq!(plan.transport, Transport::SeedLink);
        assert_eq!(plan.label, "192.168.178.55 · seedlink");
    }
    let error = plan_watch(" 10.0.0.5", Some(Transport::Fdsn)).unwrap_err();
    assert_eq!(
        error,
        WatchError::NoRoute {
            sensor: " 10.0.0.5".into(),
            chosen: Transport::Fdsn
        }
    );
    assert_eq!(
        error.to_text(),
        " 10.0.0.5 is an address on your network, and --fdsn goes through the backend, which \
         knows sensors by UID. Drop the flag to read the sensor directly, or name it by its UID."
    );
    assert!(plan_watch("10.0.0.5", Some(Transport::WebSocket)).is_err());
}

#[test]
fn a_sensor_that_is_not_named_is_not_watched() {
    let error = plan_watch(" ", None).unwrap_err();
    assert_eq!(error, WatchError::NoSource(SourceError::NoSensor));
    assert_eq!(error.to_text(), "no sensor given");
    assert_eq!(
        plan_watch("no sensor", None).unwrap_err().to_text(),
        "\"no sensor\" is neither a sensor UID nor an address, expected letters and digits or a \
         host like 192.168.1.20"
    );
}

#[test]
fn only_the_backend_needs_an_account() {
    assert!(needs_account(Transport::WebSocket));
    assert!(needs_account(Transport::Fdsn));
    assert!(!needs_account(Transport::SeedLink));
    assert_eq!(
        account_fault(Transport::Fdsn, "SEISMIQ_PASSWORD is not set"),
        "fdsn goes through the backend, which needs an account: SEISMIQ_PASSWORD is not set"
    );
    assert!(Transport::WebSocket.needs_uid() && !Transport::SeedLink.needs_uid());
}
