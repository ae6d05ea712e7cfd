//! The sensors that answer on the local network.
use vstd::prelude::*;

use crate::api::Listing;
use crate::order::{is_sort_of, law_sorted_items_ascend, sort, Order};
use crate::text::{begins_with, decimal, texts};
use crate::text::law_a_text_begins_with_what_it_is_put_together_from;
use crate::text::{digits_text, starts_with};

verus! {

/// A sensor that answered on the local network.
#[derive(Clone, Debug, PartialEq, Eq)]
pub struct Device {
    /// The IPv4 address, its first octet in the highest bits.
    pub address: u32,
    pub uuid: String,
    pub version: String,
    pub device_type: String,
}

/// The text under a key of the object that a JSON document is, if it is one
/// and has a text there.
pub uninterp spec fn json_text(body: Seq<char>, key: Seq<char>) -> Option<Seq<char>>;

/// `serde_json::from_str` into a `serde_json::Value`, then `Value::get` and
/// `Value::as_str`: the text under a key of a JSON object. There is none where
/// the body is no JSON, is no object, lacks the key or holds something else
/// there. What is found depends on the body and the key alone and is called by
/// a name.
#[verifier::external_body]
fn text_field(body: &str, key: &str) -> (r: Option<String>)
    ensures
        match r {
            Some(text) => json_text(body@, key@) == Some(text@),
            None => json_text(body@, key@) is None,
        },
{
    let json: serde_json::Value = serde_json::from_str(body).ok()?;
    Some(json.get(key)?.as_str()?.to_string())
}

/// The product name for what a sensor says its machine is.
pub open spec fn product_name(machine: Option<Seq<char>>) -> Seq<char> {
    match machine {
        Some(name) => if begins_with(name, "orange-pi"@) {
            "MEMS"@
        } else if begins_with(name, "raspberrypi"@) {
            "HiDRA"@
        } else {
            name
        },
        None => "unknown"@,
    }
}

/// A machine of the one board is a MEMS, of the other a HiDRA, whatever follows
/// the name of the board; any other machine keeps its own name, and a machine
/// that is not said is unknown.
pub proof fn law_products_follow_the_board(name: Seq<char>, rest: Seq<char>)
    ensures
        product_name(Some("orange-pi"@ + rest)) == "MEMS"@,
        product_name(Some("raspberrypi"@ + rest)) == "HiDRA"@,
        !begins_with(name, "orange-pi"@) && !begins_with(name, "raspberrypi"@) ==> product_name(
            Some(name),
        ) == name,
        product_name(None) == "unknown"@,
        or_unknown(Some(name)) == name,
        or_unknown(None) == "unknown"@,
{
    reveal_strlit("orange-pi");
    reveal_strlit("raspberrypi");
    let orange = "orange-pi"@ + rest;
    let raspberry = "raspberrypi"@ + rest;
    law_a_text_begins_with_what_it_is_put_together_from(orange, "orange-pi"@, rest);
    law_a_text_begins_with_what_it_is_put_together_from(raspberry, "raspberrypi"@, rest);
    law_a_text_begins_with_what_it_is_put_together_from(raspberry, "orange-pi"@, rest);
    assert(raspberry[0] == 'r');
    if begins_with(raspberry, "orange-pi"@) {
        assert(("orange-pi"@ + raspberry.skip(9))[0] == 'o');
    }
}

/// Map the sensor's `machine` string to its product name.
pub fn device_type_from_machine(machine: Option<&str>) -> (r: String)
    ensures
        r@ == product_name(
            match machine {
                Some(name) => Some(name@),
                None => None,
            },
        ),
{
    match machine {
        Some(name) => if starts_with(name, "orange-pi") {
            "MEMS".to_string()
        } else if starts_with(name, "raspberrypi") {
            "HiDRA".to_string()
        } else {
            name.to_string()
        },
        None => "unknown".to_string(),
    }
}

/// What was said, or that it is unknown.
pub open spec fn or_unknown(said: Option<Seq<char>>) -> Seq<char> {
    match said {
        Some(text) => text,
        None => "unknown"@,
    }
}

/// What a text that may be missing holds.
pub open spec fn held(text: Option<String>) -> Option<Seq<char>> {
    match text {
        Some(t) => Some(t@),
        None => None,
    }
}

fn known(said: Option<String>) -> (r: String)
    ensures
        r@ == or_unknown(held(said)),
{
    match said {
        Some(text) => text,
        None => "unknown".to_string(),
    }
}

/// The device with the given address, from what it says of itself. A sensor
/// sets its host name to its UID.
pub fn device_from_fields(
    address: u32,
    hostname: Option<String>,
    ringnes: Option<String>,
    machine: Option<String>,
) -> (r: Device)
    ensures
        r.address == address,
        r.uuid@ == or_unknown(held(hostname)),
        r.version@ == or_unknown(held(ringnes)),
        r.device_type@ == product_name(held(machine)),
        hostname matches Some(name) ==> r.uuid@ == name@,
        hostname is None ==> r.uuid@ == "unknown"@,
        ringnes matches Some(version) ==> r.version@ == version@,
        ringnes is None ==> r.version@ == "unknown"@,
        machine matches Some(name) ==> r.device_type@ == product_name(Some(name@)),
        machine is None ==> r.device_type@ == "unknown"@,
{
    let device_type = match &machine {
        Some(name) => device_type_from_machine(Some(name.as_str())),
        None => device_type_from_machine(None),
    };
    Device { address, uuid: known(hostname), version: known(ringnes), device_type }
}

/// The device with the given address, from the JSON document it answered with.
pub fn parse_device(address: u32, body: &str) -> (r: Device)
    ensures
        r.address == address,
        r.uuid@ == or_unknown(json_text(body@, "hostname"@)),
        r.version@ == or_unknown(json_text(body@, "ringnes"@)),
        r.device_type@ == product_name(json_text(body@, "machine"@)),
{
    let hostname = text_field(body, "hostname");
    let ringnes = text_field(body, "ringnes");
    let machine = text_field(body, "machine");
    device_from_fields(address, hostname, ringnes, machine)
}

/// The order of devices by address.
#[derive(Clone, Copy, Debug)]
pub struct ByAddress;

impl Order<Device> for ByAddress {
    open spec fn le(self, a: Device, b: Device) -> bool {
        a.address <= b.address
    }

    proof fn total(self, a: Device, b: Device) {
    }

    proof fn transitive(self, a: Device, b: Device, c: Device) {
    }

    fn leq(&self, a: &Device, b: &Device) -> (r: bool) {
        a.address <= b.address
    }
}

/// Sorted devices stand in ascending order of their addresses; devices that
/// share one keep the order in which they answered.
pub proof fn law_devices_ascend(before: Seq<Device>, after: Seq<Device>, i: int, j: int)
    requires
        is_sort_of(before, after, ByAddress),
        0 <= i < j < after.len(),
    ensures
        after[i].address <= after[j].address,
        after[i].address == after[j].address ==> exists|k: int, l: int|
            0 <= k < l < before.len() && before[k] == after[i] && before[l] == after[j],
{
    law_sorted_items_ascend(before, after, ByAddress, i, j);
}

/// Puts the devices in order of their addresses.
pub fn sort_devices(devices: &mut Vec<Device>)
    ensures
        is_sort_of(old(devices)@, final(devices)@, ByAddress),
{
    sort(devices, &ByAddress);
}

/// An address in four decimal octets with dots between them.
pub open spec fn dotted(address: u32) -> Seq<char> {
    let n = address as int;
    decimal(n / 0x100_0000) + "."@ + decimal(n / 0x1_0000 % 0x100) + "."@ + decimal(
        n / 0x100 % 0x100,
    ) + "."@ + decimal(n % 0x100)
}

/// The address made of four octets is spelled by the four, highest first.
pub proof fn law_addresses_are_spelled_by_octet(a: u8, b: u8, c: u8, d: u8, address: u32)
    requires
        address == ((a * 256 + b) * 256 + c) * 256 + d,
    ensures
        dotted(address) == decimal(a as int) + "."@ + decimal(b as int) + "."@ + decimal(c as int)
            + "."@ + decimal(d as int),
{
    let n = address as int;
    assert(n / 0x100_0000 == a);
    assert(n / 0x1_0000 == a * 256 + b);
    assert(n / 0x100 == (a * 256 + b) * 256 + c);
}

/// An address in four decimal octets with dots between them.
pub fn address_text(address: u32) -> (text: String)
    ensures
        text@ == dotted(address),
{
    let mut text = digits_text((address / 0x100_0000) as u128);
    text.append(".");
    let second = digits_text((address / 0x1_0000 % 0x100) as u128);
    text.append(second.as_str());
    text.append(".");
    let third = digits_text((address / 0x100 % 0x100) as u128);
    text.append(third.as_str());
    text.append(".");
    let fourth = digits_text((address % 0x100) as u128);
    text.append(fourth.as_str());
    text
}

/// The cells of a device in the list.
pub open spec fn device_cells(device: Device) -> Seq<Seq<char>> {
    seq![dotted(device.address), device.uuid@, device.version@, device.device_type@]
}

/// The table of the given devices.
pub fn device_table(devices: &Vec<Device>) -> (rows: Vec<Vec<String>>)
    ensures
        rows@.len() == devices@.len(),
        forall|i: int|
            0 <= i < rows@.len() ==> texts((#[trigger] rows@[i])@) == device_cells(devices@[i]),
{
    let mut rows: Vec<Vec<String>> = Vec::new();
    let mut i: usize = 0;
    while i < devices.len()
        invariant
            i <= devices@.len(),
            rows@.len() == i,
            forall|j: int|
                0 <= j < i ==> texts((#[trigger] rows@[j])@) == device_cells(devices@[j]),
        decreases devices@.len() - i,
    {
        let device = &devices[i];
        let mut cells: Vec<String> = Vec::new();
        cells.push(address_text(device.address));
        cells.push(device.uuid.clone());
        cells.push(device.version.clone());
        cells.push(device.device_type.clone());
        assert(texts(cells@) =~= device_cells(*device));
        rows.push(cells);
        i += 1;
    }
    rows
}

/// A device is what the answer from an address says.
pub open spec fn answers(device: Device, address: u32, body: Seq<char>) -> bool {
    &&& device.address == address
    &&& device.uuid@ == or_unknown(json_text(body, "hostname"@))
    &&& device.version@ == or_unknown(json_text(body, "ringnes"@))
    &&& device.device_type@ == product_name(json_text(body, "machine"@))
}

/// A device that answered is listed under the octets of its address, the host
/// name, the version and the product, each unknown where it was not said.
pub proof fn law_a_device_shows_what_it_answered(
    device: Device,
    address: u32,
    body: Seq<char>,
    a: u8,
    b: u8,
    c: u8,
    d: u8,
)
    requires
        answers(device, address, body),
        address == ((a * 256 + b) * 256 + c) * 256 + d,
    ensures
        device.address == address,
        device_cells(device).len() == 4,
        device_cells(device)[0] == decimal(a as int) + "."@ + decimal(b as int) + "."@ + decimal(
            c as int,
        ) + "."@ + decimal(d as int),
        device_cells(device)[1] == (match json_text(body, "hostname"@) {
            Some(name) => name,
            None => "unknown"@,
        }),
        device_cells(device)[2] == (match json_text(body, "ringnes"@) {
            Some(version) => version,
            None => "unknown"@,
        }),
        device_cells(device)[3] == product_name(json_text(body, "machine"@)),
{
    law_addresses_are_spelled_by_octet(a, b, c, d, address);
}

/// The list of the devices that answered, in order of their addresses.
pub fn present_results(results: &Vec<(u32, String)>) -> (r: Listing)
    ensures
        results@.len() == 0 ==> (r matches Listing::Nothing(line) && line@
            == "no devices detected"@),
        results@.len() > 0 ==> (r matches Listing::Table { header, rows } && header@ == seq![
            "IP ADDRESS",
            "UUID",
            "VERSION",
            "TYPE",
        ] && exists|found: Seq<Device>, sorted: Seq<Device>|
            #![trigger is_sort_of(found, sorted, ByAddress)]
            found.len() == results@.len() && (forall|i: int|
                0 <= i < found.len() ==> answers(
                    #[trigger] found[i],
                    results@[i].0,
                    results@[i].1@,
                )) && is_sort_of(found, sorted, ByAddress) && rows@.len() == sorted.len() && forall|
                i: int,
            |
                0 <= i < rows@.len() ==> texts((#[trigger] rows@[i])@) == device_cells(sorted[i])),
{
    if results.len() == 0 {
        return Listing::Nothing("no devices detected");
    }
    let mut devices: Vec<Device> = Vec::new();
    let mut i: usize = 0;
    while i < results.len()
        invariant
            i <= results@.len(),
            devices@.len() == i,
            forall|j: int|
                0 <= j < i ==> answers(#[trigger] devices@[j], results@[j].0, results@[j].1@),
        decreases results@.len() - i,
    {
        devices.push(parse_device(results[i].0, results[i].1.as_str()));
        i += 1;
    }
    let ghost found = devices@;
    sort_devices(&mut devices);
    let rows = device_table(&devices);
    assert(is_sort_of(found, devices@, ByAddress));
    Listing::Table { header: vec!["IP ADDRESS", "UUID", "VERSION", "TYPE"], rows }
}

} // verus!
