//! A SeedLink v3 client, enough of one to follow a single sensor live.
//!
//! SeedLink is how both ends of the fleet hand out data as it is recorded: the
//! network server relays every sensor the account may read, and each sensor
//! runs the same protocol itself for whoever can reach it on the LAN. The two
//! speak the same dialect, so one client serves both.
//!
//! The conversation is short. After `HELLO` the client names a station, asks
//! for `DATA`, and says `END`; from then on the server pushes 520 byte packets
//! until the connection drops: an eight byte sequence header followed by one
//! 512 byte miniSEED record.
use vstd::prelude::*;
use vstd::slice::slice_subrange;

use crate::mseed::RecordHeader;
use crate::number::Real;
use crate::stream::{Chunk, Update};
use crate::text::{all_alphanumeric, begins_with, contains_text, debug_text, decimal};
use crate::text::{chars_of, contains, digits_text, find, find_last, has_char, has_text, join};
use crate::text::reads_plainly;
use crate::text::law_a_mark_parts_what_it_stands_between;
use crate::text::law_a_text_begins_with_what_it_is_put_together_from;
use crate::text::{digits, law_digits_read_back, law_ports_are_numbers_of_sixteen_bits};
use crate::text::{law_split_once_cuts_at_the_first_mark, law_the_last_index_is_last};
use crate::text::law_trimming_takes_the_covered_edges;
use crate::text::{find_from, join_texts, last_index, lossy_text, port_number};
use crate::text::{law_find_is_first, lossy, only_alphanumeric, parse_port, quoted, same_text};
use crate::text::{split, split_on, stands_at, split_once, starts_with, strip_both, text_of, texts};
use crate::text::{trim_both, Edge};

verus! {

/// The port both the network server and the sensors listen on.
pub const DEFAULT_PORT: u16 = 18000;

/// SeedLink v3 records are always 512 bytes.
pub const RECORD_LEN: usize = 512;

/// The sequence header in front of a record.
pub const PACKET_HEADER_LEN: usize = 8;

/// A header and its record.
pub const PACKET_LEN: usize = 520;

/// Seconds to wait before dialling again after the connection drops.
pub const RECONNECT_DELAY: u64 = 3;

/// Seconds the opening conversation may take before we give up on it. Data
/// arrives on its own schedule afterwards, so only the handshake is timed.
pub const HANDSHAKE_TIMEOUT: u64 = 15;

/// A station list longer than this is not one we can use, and reading on
/// forever is worse than reporting what we have.
pub const MAX_INFO_PACKETS: usize = 512;

/// Where to get the live data, and how to ask for it.
#[derive(Clone, Debug, PartialEq, Eq)]
pub enum Source {
    /// The network server, which knows every sensor by its UID and hands out
    /// the ones the client's IP address is registered for.
    Network { uid: String },
    /// A sensor's own server, which serves only itself and so needs no name.
    Sensor { host: String },
}

/// A source by the text it holds.
pub enum SourceView {
    Network(Seq<char>),
    Sensor(Seq<char>),
}

impl View for Source {
    type V = SourceView;

    open spec fn view(&self) -> SourceView {
        match self {
            Source::Network { uid } => SourceView::Network(uid@),
            Source::Sensor { host } => SourceView::Sensor(host@),
        }
    }
}

/// Why a text names no source.
#[derive(Clone, Debug, PartialEq, Eq)]
pub enum SourceError {
    /// There is nothing in it.
    NoSensor,
    /// What is in it is neither a UID nor an address.
    Neither(String),
}

impl SourceError {
    /// What to tell the user.
    pub fn to_text(&self) -> (r: String)
        ensures
            r@ == (match self {
                SourceError::NoSensor => "no sensor given"@,
                SourceError::Neither(arg) => debug_text(arg@)
                    + " is neither a sensor UID nor an address, expected letters and digits or a host like 192.168.1.20"@,
            }),
    {
        match self {
            SourceError::NoSensor => "no sensor given".to_string(),
            SourceError::Neither(arg) => {
                let mut text = quoted(arg.as_str());
                text.append(
                    " is neither a sensor UID nor an address, expected letters and digits or a host like 192.168.1.20",
                );
                text
            },
        }
    }
}

/// A text holds a dot or a colon, which no UID does.
pub open spec fn is_address(text: Seq<char>) -> bool {
    text.contains('.') || text.contains(':')
}

/// No UID is mistaken for an address.
pub proof fn law_no_uid_is_an_address(text: Seq<char>)
    requires
        all_alphanumeric(text),
    ensures
        !is_address(text),
{
}

/// An address is a text with a dot or a colon in it, wherever that stands.
pub proof fn law_a_dot_or_a_colon_makes_an_address(
    text: Seq<char>,
    front: Seq<char>,
    back: Seq<char>,
)
    ensures
        is_address(front + seq!['.'] + back),
        is_address(front + seq![':'] + back),
        is_address(text) <==> exists|i: int|
            0 <= i < text.len() && (#[trigger] text[i] == '.' || text[i] == ':'),
{
    let n = front.len() as int;
    assert((front + seq!['.'] + back)[n] == '.');
    assert((front + seq![':'] + back)[n] == ':');
}

/// The host and port to dial for a source, given those of the network server.
pub open spec fn dialled(source: SourceView, network_host: Seq<char>, port: u16) -> (
    Seq<char>,
    u16,
) {
    match source {
        SourceView::Network(_) => (network_host, port),
        SourceView::Sensor(host) => match last_index(host, ':') {
            Some(i) => match port_number(host.skip(i + 1)) {
                Some(given) => (host.take(i), given),
                None => (host, port),
            },
            None => (host, port),
        },
    }
}

/// The station to ask for at a source.
pub open spec fn station_of(source: SourceView) -> Seq<char> {
    match source {
        SourceView::Network(uid) => uid,
        SourceView::Sensor(_) => "*"@,
    }
}

/// A port given in the address of a sensor wins over the default: what stands
/// behind the last colon is the port if it spells one, and what stands before
/// it the host. An address without a port is dialled whole, at the default
/// port, and the network server always is.
pub proof fn law_an_explicit_port_wins(
    host: Seq<char>,
    rest: Seq<char>,
    given: u16,
    uid: Seq<char>,
    network_host: Seq<char>,
    port: u16,
)
    requires
        !rest.contains(':'),
    ensures
        dialled(
            SourceView::Sensor(host + seq![':'] + digits(given as nat)),
            network_host,
            port,
        ) == (host, given),
        dialled(SourceView::Sensor(host + seq![':'] + rest), network_host, port) == (
            match port_number(rest) {
                Some(number) => (host, number),
                None => (host + seq![':'] + rest, port),
            }
        ),
        dialled(SourceView::Sensor(rest), network_host, port) == (rest, port),
        dialled(SourceView::Network(uid), network_host, port) == (network_host, port),
{
    law_digits_read_back(given as nat);
    law_ports_are_numbers_of_sixteen_bits(given as nat, rest);
    let spelled = digits(given as nat);
    assert(!spelled.contains(':')) by {
        if spelled.contains(':') {
            let i = choose|i: int| 0 <= i < spelled.len() && spelled[i] == ':';
            assert('0' <= spelled[i] <= '9');
        }
    }
    lemma_last_colon(host, spelled);
    lemma_last_colon(host, rest);
    law_the_last_index_is_last(rest, ':');
}

proof fn lemma_last_colon(host: Seq<char>, rest: Seq<char>)
    requires
        !rest.contains(':'),
    ensures
        last_index(host + seq![':'] + rest, ':') == Some(host.len() as int),
        (host + seq![':'] + rest).take(host.len() as int) == host,
        (host + seq![':'] + rest).skip(host.len() as int + 1) == rest,
{
    let text = host + seq![':'] + rest;
    let n = host.len() as int;
    law_the_last_index_is_last(text, ':');
    assert(text[n] == ':');
    let i = last_index(text, ':')->0;
    if i > n {
        assert(rest[i - n - 1] == ':');
    }
    assert(text.take(n) =~= host);
    assert(text.skip(n + 1) =~= rest);
}

/// The network server is asked for the sensor by name, a sensor for whatever it
/// has; a source is seen by the text it holds.
pub proof fn law_the_station_is_named_where_there_are_many(source: Source, text: Seq<char>)
    ensures
        station_of(SourceView::Network(text)) == text,
        station_of(SourceView::Sensor(text)).len() == 1 && station_of(
            SourceView::Sensor(text),
        )[0] == '*',
        source matches Source::Network { uid } ==> source@ == SourceView::Network(uid@),
        source matches Source::Sensor { host } ==> source@ == SourceView::Sensor(host@),
{
    reveal_strlit("*");
}

impl Source {
    /// Read the target off the command line.
    ///
    /// Sensor UIDs are letters and digits only, so anything carrying a dot or a
    /// colon is an address rather than a UID.
    pub fn from_arg(arg: &str) -> (r: Result<Self, SourceError>)
        ensures
            ({
                let named = strip_both(arg@, Edge::White);
                if named.len() == 0 {
                    r == Err::<Source, SourceError>(SourceError::NoSensor)
                } else if is_address(named) {
                    r matches Ok(source) && source@ == SourceView::Sensor(named)
                } else if all_alphanumeric(named) {
                    r matches Ok(source) && source@ == SourceView::Network(named)
                } else {
                    r matches Err(SourceError::Neither(text)) && text@ == named
                }
            }),
    {
        let named = trim_both(arg, Edge::White);
        if named.as_str().is_empty() {
            return Err(SourceError::NoSensor);
        }
        if has_char(named.as_str(), '.') || has_char(named.as_str(), ':') {
            return Ok(Source::Sensor { host: named });
        }
        if !only_alphanumeric(named.as_str()) {
            return Err(SourceError::Neither(named));
        }
        Ok(Source::Network { uid: named })
    }

    /// The host and port to dial.
    pub fn address(&self, network_host: &str, port: u16) -> (r: (String, u16))
        ensures
            (r.0@, r.1) == dialled(self@, network_host@, port),
    {
        match self {
            Source::Network { .. } => (network_host.to_string(), port),
            Source::Sensor { host } => {
                let chars = chars_of(host.as_str());
                let end: usize = chars.len();
                assert(end == chars@.len());
                // An explicit port in the address wins over the default.
                if let Some(i) = find_last(&chars, ':') {
                    if let Some(given) = parse_port(&chars, i + 1) {
                        assert(chars@.subrange(0, i as int) == host@.take(i as int));
                        return (text_of(&chars, 0, i), given);
                    }
                }
                (host.clone(), port)
            },
        }
    }

    /// The station to ask for. A sensor answers `*` with its own station code,
    /// which saves us having to know how it was configured; the network server
    /// serves many, so there it has to be named.
    pub fn station(&self) -> (r: &str)
        ensures
            r@ == station_of(self@),
    {
        match self {
            Source::Network { uid } => uid.as_str(),
            Source::Sensor { .. } => "*",
        }
    }
}

/// The name that a station element carries, if it carries one.
pub open spec fn name_in(element: Seq<char>) -> Option<Seq<char>> {
    match split_once(element, "name=\""@) {
        Some((_, rest)) => match split_once(rest, "\""@) {
            Some((name, _)) => Some(name),
            None => None,
        },
        None => None,
    }
}

/// The names that the elements carry, in order.
pub open spec fn names_in(elements: Seq<Seq<char>>) -> Seq<Seq<char>>
    decreases elements.len(),
{
    if elements.len() == 0 {
        Seq::empty()
    } else {
        let before = names_in(elements.drop_last());
        match name_in(elements.last()) {
            Some(name) => before.push(name),
            None => before,
        }
    }
}

/// The names of the station elements in an `INFO STATIONS` answer.
pub open spec fn listed_stations(xml: Seq<char>) -> Seq<Seq<char>> {
    names_in(split_on(xml, "<station"@).skip(1))
}

/// The name of an element stands between the first opening of the attribute and
/// the next quote; an element without the one or the other has no name.
pub proof fn law_a_name_stands_between_quotes(
    front: Seq<char>,
    name: Seq<char>,
    back: Seq<char>,
    element: Seq<char>,
)
    requires
        !contains_text(front, "name=\""@),
        !name.contains('"'),
    ensures
        name_in(front + "name=\""@ + (name + "\""@ + back)) == Some(name),
        name_in(front + "name=\""@ + name) is None,
        !contains_text(element, "name=\""@) ==> name_in(element) is None,
{
    reveal_strlit("name=\"");
    reveal_strlit("\"");
    let open_mark = "name=\""@;
    let close_mark = "\""@;
    law_a_mark_parts_what_it_stands_between(front, open_mark, name + close_mark + back);
    law_a_mark_parts_what_it_stands_between(front, open_mark, name);
    assert forall|at: int| !stands_at(name, close_mark, at) by {
        if stands_at(name, close_mark, at) {
            assert(name.subrange(at, at + 1)[0] == '"');
            assert(name[at] == '"');
        }
    }
    law_a_mark_parts_what_it_stands_between(name, close_mark, back);
    law_split_once_cuts_at_the_first_mark(name, close_mark);
    law_split_once_cuts_at_the_first_mark(element, open_mark);
    if split_once(name, close_mark) is Some {
        let (a, b) = split_once(name, close_mark)->0;
        assert(name[a.len() as int] == '"');
    }
    if !contains_text(element, open_mark) && split_once(element, open_mark) is Some {
        let (a, b) = split_once(element, open_mark)->0;
        let n = a.len() as int;
        assert(element.subrange(n, n + open_mark.len()) =~= open_mark);
        assert(stands_at(element, open_mark, n));
    }
}

/// Names are taken element by element: those of two lists are the names of the
/// one and then of the other, and one element gives its name if it has one.
pub proof fn law_names_are_taken_element_by_element(
    front: Seq<Seq<char>>,
    back: Seq<Seq<char>>,
    element: Seq<char>,
)
    ensures
        names_in(front + back) == names_in(front) + names_in(back),
        names_in(seq![element]) == (match name_in(element) {
            Some(name) => seq![name],
            None => seq![],
        }),
        names_in(seq![]) == Seq::<Seq<char>>::empty(),
    decreases back.len(),
{
    let all = front + back;
    assert(seq![element].drop_last() =~= seq![]);
    assert(names_in(seq![]) =~= seq![]);
    if back.len() == 0 {
        assert(all =~= front);
        assert(back =~= seq![]);
    } else {
        assert(all.drop_last() =~= front + back.drop_last());
        law_names_are_taken_element_by_element(front, back.drop_last(), element);
    }
    assert(names_in(all) =~= names_in(front) + names_in(back));
    let alone = names_in(seq![element]);
    if alone.len() == 1 {
        assert(alone =~= seq![alone[0]]);
    }
}

/// An answer lists the stations in order: another station element at its end
/// adds the name it carries, and an answer without any lists none.
pub proof fn law_every_station_element_is_listed(xml: Seq<char>, element: Seq<char>)
    requires
        !contains_text(element, "<station"@),
    ensures
        listed_stations(xml + "<station"@ + element) == listed_stations(xml) + (match name_in(
            element,
        ) {
            Some(name) => seq![name],
            None => seq![],
        }),
        listed_stations(element) == Seq::<Seq<char>>::empty(),
{
    reveal_strlit("<station");
    let mark = "<station"@;
    law_a_mark_parts_what_it_stands_between(xml, mark, element);
    law_a_mark_parts_what_it_stands_between(element, mark, xml);
    lemma_split_has_a_piece(xml, mark);
    let front = split_on(xml, mark).skip(1);
    law_names_are_taken_element_by_element(front, seq![element], element);
    assert(split_on(xml + mark + element, mark).skip(1) =~= front + seq![element]);
    assert(seq![element].skip(1) =~= seq![]);
}

fn station_name(element: &Vec<char>) -> (r: Option<String>)
    ensures
        match r {
            Some(name) => name_in(element@) == Some(name@),
            None => name_in(element@) is None,
        },
{
    let open_mark = chars_of("name=\"");
    let close_mark = chars_of("\"");
    let opened = match find(element, &open_mark, 0) {
        Some(i) => i,
        None => {
            return None;
        },
    };
    proof {
        law_find_is_first(element@, open_mark@, 0);
    }
    let end: usize = element.len();
    assert(opened + open_mark@.len() <= end);
    let start: usize = opened + open_mark.len();
    let ghost rest = element@.skip(start as int);
    proof {
        crate::text::law_find_from_searches_the_rest(element@, close_mark@, start as int, start as int);
        law_find_is_first(rest, close_mark@, 0);
    }
    match find(element, &close_mark, start) {
        Some(stop) => {
            assert(rest.take(stop - start) == element@.subrange(start as int, stop as int));
            Some(text_of(element, start, stop))
        },
        None => None,
    }
}

/// Pull the station names out of an `INFO STATIONS` answer.
///
/// The reply is XML wrapped in miniSEED records, and all we want from it is the
/// list of names, so it is scanned rather than parsed.
pub fn station_names(xml: &str) -> (names: Vec<String>)
    ensures
        texts(names@) == listed_stations(xml@),
{
    let chars = chars_of(xml);
    let mark = chars_of("<station");
    proof {
        reveal_strlit("<station");
    }
    let pieces = split(&chars, &mark);
    let ghost elements = split_on(xml@, mark@).skip(1);
    let mut names: Vec<String> = Vec::new();
    let mut i: usize = 1;
    proof {
        lemma_split_has_a_piece(xml@, mark@);
        assert(texts(names@) =~= names_in(elements.take(0)));
    }
    while i < pieces.len()
        invariant
            1 <= i <= pieces@.len(),
            elements == split_on(xml@, mark@).skip(1),
            pieces@.len() == split_on(xml@, mark@).len(),
            forall|j: int|
                0 <= j < pieces@.len() ==> (#[trigger] pieces@[j])@ == split_on(xml@, mark@)[j],
            texts(names@) == names_in(elements.take(i - 1)),
        decreases pieces@.len() - i,
    {
        let ghost seen = elements.take(i as int);
        proof {
            assert(seen.drop_last() == elements.take(i - 1));
            assert(seen.last() == pieces@[i as int]@);
        }
        let ghost had = names@;
        if let Some(name) = station_name(&pieces[i]) {
            names.push(name);
            assert(texts(names@) =~= texts(had).push(name@));
        }
        i += 1;
    }
    assert(elements.take(i - 1) == elements);
    names
}

proof fn lemma_split_has_a_piece(text: Seq<char>, mark: Seq<char>)
    ensures
        split_on(text, mark).len() >= 1,
{
}

/// No station name holds a double quote.
pub proof fn law_station_names_hold_no_quote(xml: Seq<char>, i: int)
    requires
        0 <= i < listed_stations(xml).len(),
    ensures
        !listed_stations(xml)[i].contains('"'),
{
    lemma_names_hold_no_quote(split_on(xml, "<station"@).skip(1), i);
}

proof fn lemma_names_hold_no_quote(elements: Seq<Seq<char>>, i: int)
    requires
        0 <= i < names_in(elements).len(),
    ensures
        !names_in(elements)[i].contains('"'),
    decreases elements.len(),
{
    let before = names_in(elements.drop_last());
    if i < before.len() {
        lemma_names_hold_no_quote(elements.drop_last(), i);
    } else {
        let element = elements.last();
        let (_, rest) = split_once(element, "name=\""@)->0;
        reveal_strlit("\"");
        law_find_is_first(rest, "\""@, 0);
        let at = find_from(rest, "\""@, 0)->0;
        let name = rest.take(at);
        if name.contains('"') {
            let k = choose|k: int| 0 <= k < name.len() && name[k] == '"';
            assert(rest.subrange(k, k + 1) =~= "\""@);
            assert(stands_at(rest, "\""@, k));
        }
    }
}

/// A command as it goes over the wire.
pub open spec fn wire_line(command: Seq<char>) -> Seq<char> {
    command + "\r\n"@
}

/// A command as it goes over the wire.
pub fn command_line(command: &str) -> (line: String)
    ensures
        line@ == wire_line(command@),
{
    let mut line = command.to_string();
    line.append("\r\n");
    line
}

/// A command goes over the wire as it is, with a carriage return and a line feed
/// behind it.
pub proof fn law_a_command_ends_its_line(command: Seq<char>)
    ensures
        wire_line(command) == command + seq!['\r', '\n'],
{
    reveal_strlit("\r\n");
    assert("\r\n"@ =~= seq!['\r', '\n']);
}

/// What the server's answer to a command amounts to.
pub open spec fn reply_fault(command: Seq<char>, reply: Seq<char>) -> Option<Seq<char>> {
    if reply == "OK"@ {
        None
    } else if reply == "ERROR"@ {
        Some("the server refused "@ + debug_text(command))
    } else {
        Some(
            "the server answered "@ + debug_text(command) + " with "@ + debug_text(reply)
                + ", which is not SeedLink"@,
        )
    }
}

/// A command is accepted by `OK` and by nothing else; a refusal quotes the
/// command, and any other answer is quoted with it.
pub proof fn law_only_ok_accepts(command: Seq<char>, reply: Seq<char>)
    ensures
        reply_fault(command, reply) is None <==> reply =~= seq!['O', 'K'],
        reply =~= seq!['E', 'R', 'R', 'O', 'R'] ==> reply_fault(command, reply) == Some(
            "the server refused "@ + debug_text(command),
        ),
        !(reply =~= seq!['O', 'K']) && !(reply =~= seq!['E', 'R', 'R', 'O', 'R']) ==> reply_fault(
            command,
            reply,
        ) == Some(
            "the server answered "@ + debug_text(command) + " with "@ + debug_text(reply)
                + ", which is not SeedLink"@,
        ),
{
    reveal_strlit("OK");
    reveal_strlit("ERROR");
    assert("OK"@ =~= seq!['O', 'K']);
    assert("ERROR"@ =~= seq!['E', 'R', 'R', 'O', 'R']);
}

/// Whether the server answered a command with `OK`, and what is wrong if not.
pub fn check_reply(command: &str, reply: &str) -> (r: Result<(), String>)
    ensures
        match reply_fault(command@, reply@) {
            None => r is Ok,
            Some(fault) => r matches Err(e) && e@ == fault,
        },
{
    if same_text(reply, "OK") {
        return Ok(());
    }
    let asked = quoted(command);
    if same_text(reply, "ERROR") {
        let mut text = "the server refused ".to_string();
        text.append(asked.as_str());
        return Err(text);
    }
    let answered = quoted(reply);
    let mut text = "the server answered ".to_string();
    text.append(asked.as_str());
    text.append(" with ");
    text.append(answered.as_str());
    text.append(", which is not SeedLink");
    Err(text)
}

/// The text of one line of the handshake.
pub open spec fn line_text(line: Seq<u8>) -> Seq<char> {
    strip_both(lossy_text(line), Edge::LineEnd)
}

/// A line is read without the carriage returns and line feeds at its ends, and
/// with everything between them.
pub proof fn law_a_line_is_read_without_its_end(line: Seq<u8>)
    ensures
        exists|from: int, to: int|
            #![trigger lossy_text(line).subrange(from, to)]
            0 <= from <= to <= lossy_text(line).len() && line_text(line) == lossy_text(
                line,
            ).subrange(from, to) && (forall|i: int|
                0 <= i < from || to <= i < lossy_text(line).len() ==> (#[trigger] lossy_text(
                    line,
                )[i] == '\r' || lossy_text(line)[i] == '\n')) && (from < to ==> lossy_text(
                line,
            )[from] != '\r' && lossy_text(line)[from] != '\n' && lossy_text(line)[to - 1] != '\r'
                && lossy_text(line)[to - 1] != '\n'),
{
    let text = lossy_text(line);
    law_trimming_takes_the_covered_edges(text, Edge::LineEnd);
    let (from, to) = choose|from: int, to: int|
        #![trigger text.subrange(from, to)]
        0 <= from <= to <= text.len() && strip_both(text, Edge::LineEnd) == text.subrange(from, to)
            && (forall|i: int|
            0 <= i < from || to <= i < text.len() ==> Edge::LineEnd.covers(#[trigger] text[i])) && (
        from < to ==> !Edge::LineEnd.covers(text[from]) && !Edge::LineEnd.covers(text[to - 1]));
    assert(line_text(line) == lossy_text(line).subrange(from, to));
}

/// The text of one line of the handshake; the server is gone where the line is
/// empty of even a line end.
pub fn read_line(line: &Vec<u8>) -> (r: Result<String, String>)
    ensures
        line@.len() == 0 ==> (r matches Err(e) && e@
            == "the server closed the connection during the handshake"@),
        line@.len() > 0 ==> (r matches Ok(text) && text@ == line_text(line@)) && reads_plainly(
            line@,
        ),
{
    if line.len() == 0 {
        return Err("the server closed the connection during the handshake".to_string());
    }
    let text = lossy(line.as_slice());
    Ok(trim_both(text.as_str(), Edge::LineEnd))
}

/// What is wrong with what a server calls itself.
pub open spec fn greeting_fault(software: Seq<char>) -> Option<Seq<char>> {
    if begins_with(software, "SeedLink"@) {
        None
    } else {
        Some(debug_text(software) + " does not look like a SeedLink server"@)
    }
}

/// A server is taken for a SeedLink server exactly if it calls itself one,
/// whatever follows; else the fault quotes what it calls itself.
pub proof fn law_a_seedlink_server_says_so(software: Seq<char>, rest: Seq<char>)
    ensures
        greeting_fault("SeedLink"@ + rest) is None,
        !begins_with(software, "SeedLink"@) ==> greeting_fault(software) == Some(
            debug_text(software) + " does not look like a SeedLink server"@,
        ),
{
    law_a_text_begins_with_what_it_is_put_together_from(software, "SeedLink"@, rest);
}

/// Whether a server calls itself one of ours, and what is wrong if not.
pub fn check_greeting(software: &str) -> (r: Result<(), String>)
    ensures
        match greeting_fault(software@) {
            None => r is Ok,
            Some(fault) => r matches Err(e) && e@ == fault,
        },
{
    if starts_with(software, "SeedLink") {
        return Ok(());
    }
    let mut text = quoted(software);
    text.append(" does not look like a SeedLink server");
    Err(text)
}

/// The packet begins with the given bytes.
pub open spec fn leads_with(packet: Seq<u8>, mark: Seq<u8>) -> bool {
    mark.len() <= packet.len() && packet.take(mark.len() as int) == mark
}

/// The letters `SLINFO`.
pub open spec fn info_mark() -> Seq<u8> {
    seq![0x53u8, 0x4c, 0x49, 0x4e, 0x46, 0x4f]
}

/// The letters `SL`.
pub open spec fn packet_mark() -> Seq<u8> {
    seq![0x53u8, 0x4c]
}

/// What a packet is, by the letters it begins with.
#[derive(Clone, Copy, Debug, PartialEq, Eq, Structural)]
pub enum PacketKind {
    /// A part of an answer to `INFO`.
    Info,
    /// A record.
    Record,
    /// Not a SeedLink packet.
    Foreign,
}

/// What a packet is.
pub open spec fn kind_of(packet: Seq<u8>) -> PacketKind {
    if leads_with(packet, info_mark()) {
        PacketKind::Info
    } else if leads_with(packet, packet_mark()) {
        PacketKind::Record
    } else {
        PacketKind::Foreign
    }
}

/// A packet of an `INFO` answer begins with the six letters of its mark, any
/// other packet of the protocol with two of them, and anything else is foreign.
pub proof fn law_packets_are_known_by_their_first_letters(packet: Seq<u8>)
    ensures
        kind_of(packet) is Info <==> packet.len() >= 6 && packet[0] == 83 && packet[1] == 76
            && packet[2] == 73 && packet[3] == 78 && packet[4] == 70 && packet[5] == 79,
        kind_of(packet) is Foreign <==> !(packet.len() >= 2 && packet[0] == 83 && packet[1] == 76),
{
    if leads_with(packet, info_mark()) {
        let lead = packet.take(6);
        assert(lead == info_mark());
        assert(lead[0] == 83 && lead[1] == 76 && lead[2] == 73 && lead[3] == 78 && lead[4] == 70
            && lead[5] == 79);
    }
    if packet.len() >= 6 && packet[0] == 83 && packet[1] == 76 && packet[2] == 73 && packet[3] == 78
        && packet[4] == 70 && packet[5] == 79 {
        assert(packet.take(6) =~= info_mark());
    }
    if leads_with(packet, packet_mark()) {
        let lead = packet.take(2);
        assert(lead == packet_mark());
        assert(lead[0] == 83 && lead[1] == 76);
    }
    if packet.len() >= 2 && packet[0] == 83 && packet[1] == 76 {
        assert(packet.take(2) =~= packet_mark());
    }
}

/// What a packet is.
pub fn packet_kind(packet: &[u8]) -> (r: PacketKind)
    ensures
        r == kind_of(packet@),
{
    if packet.len() < 2 || packet[0] != 0x53 || packet[1] != 0x4c {
        proof {
            if leads_with(packet@, packet_mark()) {
                assert(packet@.take(2)[0] == packet_mark()[0]);
                assert(packet@.take(2)[1] == packet_mark()[1]);
            }
            if leads_with(packet@, info_mark()) {
                assert(packet@.take(6)[0] == info_mark()[0]);
                assert(packet@.take(6)[1] == info_mark()[1]);
            }
        }
        return PacketKind::Foreign;
    }
    assert(packet@.take(2) =~= packet_mark());
    if packet.len() >= 6 && packet[2] == 0x49 && packet[3] == 0x4e && packet[4] == 0x46 && packet[5]
        == 0x4f {
        assert(packet@.take(6) =~= info_mark());
        PacketKind::Info
    } else {
        proof {
            if leads_with(packet@, info_mark()) {
                assert(packet@.take(6)[2] == info_mark()[2]);
                assert(packet@.take(6)[3] == info_mark()[3]);
                assert(packet@.take(6)[4] == info_mark()[4]);
                assert(packet@.take(6)[5] == info_mark()[5]);
            }
        }
        PacketKind::Record
    }
}

/// The text without the characters of code zero.
pub open spec fn without_nul(text: Seq<char>) -> Seq<char> {
    text.filter(|c: char| c != '\0')
}

/// The characters of code zero go, and every other one stays in its order.
pub proof fn law_only_nul_is_dropped(front: Seq<char>, c: char)
    ensures
        without_nul(front.push(c)) == (if c as u32 == 0 {
            without_nul(front)
        } else {
            without_nul(front).push(c)
        }),
        without_nul(Seq::empty()) == Seq::<char>::empty(),
{
    reveal(Seq::filter);
    assert(front.push(c).drop_last() =~= front);
    assert(without_nul(Seq::empty()) =~= Seq::<char>::empty());
}

fn drop_nul(text: &str) -> (r: String)
    ensures
        r@ == without_nul(text@),
{
    let chars = chars_of(text);
    let mut r = String::new();
    let mut i: usize = 0;
    assert(chars@.take(0).filter(|c: char| c != '\0') =~= Seq::<char>::empty()) by {
        reveal(Seq::filter);
    }
    while i < chars.len()
        invariant
            i <= chars@.len(),
            r@ == chars@.take(i as int).filter(|c: char| c != '\0'),
        decreases chars@.len() - i,
    {
        let ghost seen = chars@.take(i + 1);
        proof {
            reveal(Seq::filter);
            assert(seen.drop_last() == chars@.take(i as int));
            assert(seen.last() == chars@[i as int]);
        }
        if chars[i] != '\0' {
            r.push(chars[i]);
        }
        i += 1;
    }
    assert(chars@.take(i as int) == chars@);
    r
}

/// The text that a packet of an `INFO` answer carries.
pub open spec fn info_text(packet: Seq<u8>) -> Seq<char> {
    without_nul(lossy_text(packet.skip(PACKET_HEADER_LEN as int)))
}

/// The text of a packet is that of the record behind the eight bytes of its
/// header, which makes up the rest of its 520 bytes.
pub proof fn law_a_packet_is_a_header_and_a_record(header: Seq<u8>, record: Seq<u8>)
    requires
        header.len() == 8,
    ensures
        info_text(header + record) == without_nul(lossy_text(record)),
        (header + record).len() == PACKET_LEN <==> record.len() == 512,
        PACKET_HEADER_LEN == 8 && RECORD_LEN == 512 && PACKET_LEN == PACKET_HEADER_LEN + RECORD_LEN,
{
    assert((header + record).skip(8) =~= record);
}

/// The text that a packet of an `INFO` answer carries.
pub fn read_info(packet: &[u8]) -> (r: String)
    requires
        packet@.len() == PACKET_LEN,
    ensures
        r@ == info_text(packet@),
        reads_plainly(packet@.skip(PACKET_HEADER_LEN as int)),
{
    let record = slice_subrange(packet, PACKET_HEADER_LEN, packet.len());
    assert(record@ == packet@.skip(PACKET_HEADER_LEN as int));
    let text = lossy(record);
    drop_nul(text.as_str())
}

/// How far the opening conversation with a server has come.
#[derive(Clone, Debug, PartialEq, Eq)]
pub enum Stage {
    /// We greeted the server; it owes us the name of its software.
    Greeting,
    /// It owes us the name of its organisation, which we only read to stay in
    /// step.
    Introduced { software: String },
    /// It owes us the list of its stations, or more of it.
    Listing { software: String, xml: String, packets: usize },
    /// We named the station; it owes us an `OK`.
    Naming { software: String, named: String },
    /// We asked for data; it owes us an `OK`.
    Asking { software: String, named: String },
    /// The conversation is done and packets follow.
    Streaming,
    /// The conversation failed.
    Over,
}

/// A stage by the texts it holds.
pub enum StageView {
    Greeting,
    Introduced { software: Seq<char> },
    Listing { software: Seq<char>, xml: Seq<char>, packets: int },
    Naming { software: Seq<char>, named: Seq<char> },
    Asking { software: Seq<char>, named: Seq<char> },
    Streaming,
    Over,
}

impl View for Stage {
    type V = StageView;

    open spec fn view(&self) -> StageView {
        match self {
            Stage::Greeting => StageView::Greeting,
            Stage::Introduced { software } => StageView::Introduced { software: software@ },
            Stage::Listing { software, xml, packets } => StageView::Listing {
                software: software@,
                xml: xml@,
                packets: *packets as int,
            },
            Stage::Naming { software, named } => StageView::Naming {
                software: software@,
                named: named@,
            },
            Stage::Asking { software, named } => StageView::Asking {
                software: software@,
                named: named@,
            },
            Stage::Streaming => StageView::Streaming,
            Stage::Over => StageView::Over,
        }
    }
}

/// What comes from the server.
#[derive(Clone, Debug, PartialEq, Eq)]
pub enum Event {
    /// A line, with its line end; nothing where the server closed the
    /// connection.
    Line(Vec<u8>),
    /// A packet.
    Packet(Vec<u8>),
    /// The connection failed, for the given reason.
    Lost(String),
}

/// An event by what it holds.
pub enum EventView {
    Line(Seq<u8>),
    Packet(Seq<u8>),
    Lost(Seq<char>),
}

impl View for Event {
    type V = EventView;

    open spec fn view(&self) -> EventView {
        match self {
            Event::Line(line) => EventView::Line(line@),
            Event::Packet(packet) => EventView::Packet(packet@),
            Event::Lost(reason) => EventView::Lost(reason@),
        }
    }
}

/// What to do next.
#[derive(Clone, Debug, PartialEq, Eq)]
pub enum Step {
    /// Read what the server owes us.
    Read,
    /// Send this, then read what the server owes us.
    Send(String),
    /// Send this, tell the view that the connection is up, and read packets.
    Begin { line: String, server: String, station: String },
    /// Give the connection up.
    Fail(String),
}

/// A step by the texts it holds.
pub enum StepView {
    Read,
    Send(Seq<char>),
    Begin { line: Seq<char>, server: Seq<char>, station: Seq<char> },
    Fail(Seq<char>),
}

impl View for Step {
    type V = StepView;

    open spec fn view(&self) -> StepView {
        match self {
            Step::Read => StepView::Read,
            Step::Send(line) => StepView::Send(line@),
            Step::Begin { line, server, station } => StepView::Begin {
                line: line@,
                server: server@,
                station: station@,
            },
            Step::Fail(reason) => StepView::Fail(reason@),
        }
    }
}

/// What is wrong where a server does not list the sensor we want. A list that
/// could not be read says nothing either way.
pub open spec fn availability_fault(
    source: SourceView,
    host: Seq<char>,
    available: Option<Seq<Seq<char>>>,
) -> Option<Seq<char>> {
    match (source, available) {
        (SourceView::Network(uid), Some(names)) => if names.contains(uid) {
            None
        } else if names.len() == 0 {
            Some(
                host
                    + " serves no sensors to this machine. The network server recognises an account by the address it connects from, so add this machine's public IP under Waveforms > Network SeedLink Server, or point sqcli at a sensor on your own network instead."@,
            )
        } else {
            Some(
                host + " does not serve sensor "@ + uid + "; it offers "@ + join_texts(
                    names,
                    ", "@,
                ),
            )
        },
        _ => None,
    }
}

/// What to call the station that a source streams.
pub open spec fn named_station(source: SourceView, available: Option<Seq<Seq<char>>>) -> Seq<
    char,
> {
    match source {
        SourceView::Network(uid) => uid,
        SourceView::Sensor(_) => match available {
            Some(names) => if names.len() > 0 {
                names[0]
            } else {
                "*"@
            },
            None => "*"@,
        },
    }
}

/// The command that names the station of a source.
pub open spec fn station_command(source: SourceView) -> Seq<char> {
    "STATION "@ + station_of(source)
}

/// What follows the list of stations.
pub open spec fn after_listing(
    source: SourceView,
    host: Seq<char>,
    software: Seq<char>,
    available: Option<Seq<Seq<char>>>,
) -> (StageView, StepView) {
    match availability_fault(source, host, available) {
        Some(fault) => (StageView::Over, StepView::Fail(fault)),
        None => (
            StageView::Naming { software, named: named_station(source, available) },
            StepView::Send(wire_line(station_command(source))),
        ),
    }
}

/// What follows an event in a stage.
pub open spec fn next(
    source: SourceView,
    host: Seq<char>,
    stage: StageView,
    event: EventView,
) -> (StageView, StepView) {
    let closed = (
        StageView::Over,
        StepView::Fail("the server closed the connection during the handshake"@),
    );
    match (stage, event) {
        (StageView::Listing { software, .. }, EventView::Lost(_)) => after_listing(
            source,
            host,
            software,
            None,
        ),
        (_, EventView::Lost(reason)) => (StageView::Over, StepView::Fail(reason)),
        (StageView::Greeting, EventView::Line(line)) => if line.len() == 0 {
            closed
        } else {
            (StageView::Introduced { software: line_text(line) }, StepView::Read)
        },
        (StageView::Introduced { software }, EventView::Line(line)) => if line.len() == 0 {
            closed
        } else {
            match greeting_fault(software) {
                Some(fault) => (StageView::Over, StepView::Fail(fault)),
                None => (
                    StageView::Listing { software, xml: Seq::empty(), packets: 0 },
                    StepView::Send(wire_line("INFO STATIONS"@)),
                ),
            }
        },
        (StageView::Listing { software, xml, packets }, EventView::Packet(packet)) => {
            let more = xml + info_text(packet);
            if kind_of(packet) != PacketKind::Info {
                after_listing(source, host, software, None)
            } else if contains_text(more, "</seedlink>"@) || packets + 1 >= MAX_INFO_PACKETS {
                after_listing(source, host, software, Some(listed_stations(more)))
            } else {
                (
                    StageView::Listing { software, xml: more, packets: packets + 1 },
                    StepView::Read,
                )
            }
        },
        (StageView::Naming { software, named }, EventView::Line(line)) => if line.len() == 0 {
            closed
        } else {
            match reply_fault(station_command(source), line_text(line)) {
                Some(fault) => (StageView::Over, StepView::Fail(fault)),
                None => (
                    StageView::Asking { software, named },
                    StepView::Send(wire_line("DATA"@)),
                ),
            }
        },
        (StageView::Asking { software, named }, EventView::Line(line)) => if line.len() == 0 {
            closed
        } else {
            match reply_fault("DATA"@, line_text(line)) {
                Some(fault) => (StageView::Over, StepView::Fail(fault)),
                None => (
                    StageView::Streaming,
                    StepView::Begin { line: wire_line("END"@), server: software, station: named },
                ),
            }
        },
        _ => (stage, StepView::Read),
    }
}

/// A stage, an event and a step are seen by what they hold.
pub proof fn law_conversations_are_seen_as_they_are(stage: Stage, event: Event, step: Step)
    ensures
        match stage {
            Stage::Greeting => stage@ is Greeting,
            Stage::Introduced { software } => stage@ == (StageView::Introduced {
                software: software@,
            }),
            Stage::Listing { software, xml, packets } => stage@ == (StageView::Listing {
                software: software@,
                xml: xml@,
                packets: packets as int,
            }),
            Stage::Naming { software, named } => stage@ == (StageView::Naming {
                software: software@,
                named: named@,
            }),
            Stage::Asking { software, named } => stage@ == (StageView::Asking {
                software: software@,
                named: named@,
            }),
            Stage::Streaming => stage@ is Streaming,
            Stage::Over => stage@ is Over,
        },
        match event {
            Event::Line(line) => event@ == EventView::Line(line@),
            Event::Packet(packet) => event@ == EventView::Packet(packet@),
            Event::Lost(reason) => event@ == EventView::Lost(reason@),
        },
        match step {
            Step::Read => step@ is Read,
            Step::Send(line) => step@ == StepView::Send(line@),
            Step::Begin { line, server, station } => step@ == (StepView::Begin {
                line: line@,
                server: server@,
                station: station@,
            }),
            Step::Fail(reason) => step@ == StepView::Fail(reason@),
        },
{
}

/// A network server that answered is held to its list: one that offers nothing,
/// or not the sensor we want, is at fault, and the fault names the host, the
/// sensor and what is offered. A sensor is never at fault for its list, nor is
/// a list that could not be read.
pub proof fn law_a_server_must_offer_the_sensor(
    uid: Seq<char>,
    host: Seq<char>,
    address: Seq<char>,
    names: Seq<Seq<char>>,
    available: Option<Seq<Seq<char>>>,
)
    ensures
        availability_fault(SourceView::Network(uid), host, Some(names)) is None <==> exists|i: int|
            0 <= i < names.len() && #[trigger] names[i] == uid,
        names.len() == 0 ==> begins_with(
            availability_fault(SourceView::Network(uid), host, Some(names))->0,
            host,
        ),
        names.len() > 0 && !names.contains(uid) ==> availability_fault(
            SourceView::Network(uid),
            host,
            Some(names),
        ) == Some(
            host + " does not serve sensor "@ + uid + "; it offers "@ + join_texts(names, ", "@),
        ),
        availability_fault(SourceView::Sensor(address), host, available) is None,
        availability_fault(SourceView::Network(uid), host, None) is None,
{
    if exists|i: int| 0 <= i < names.len() && #[trigger] names[i] == uid {
        assert(names.contains(uid));
    }
    if names.len() == 0 {
        let rest =
            " serves no sensors to this machine. The network server recognises an account by the address it connects from, so add this machine's public IP under Waveforms > Network SeedLink Server, or point sqcli at a sensor on your own network instead."@;
        law_a_text_begins_with_what_it_is_put_together_from(host, host, rest);
    }
}

/// The station is called by the UID on the network server; a sensor's is called
/// by the first name it lists, and by the asterisk where it lists none.
pub proof fn law_what_a_station_is_called(
    uid: Seq<char>,
    address: Seq<char>,
    host: Seq<char>,
    software: Seq<char>,
    names: Seq<Seq<char>>,
    available: Option<Seq<Seq<char>>>,
)
    ensures
        named_station(SourceView::Network(uid), available) == uid,
        names.len() > 0 ==> named_station(SourceView::Sensor(address), Some(names)) == names[0],
        names.len() == 0 ==> named_station(SourceView::Sensor(address), Some(names)) == "*"@,
        named_station(SourceView::Sensor(address), None) == "*"@,
        after_listing(SourceView::Sensor(address), host, software, available) == (
            StageView::Naming {
                software,
                named: named_station(SourceView::Sensor(address), available),
            },
            StepView::Send(wire_line("STATION *"@)),
        ),
        (available matches Some(offered) ==> offered.contains(uid)) ==> after_listing(
            SourceView::Network(uid),
            host,
            software,
            available,
        ) == (
            StageView::Naming { software, named: uid },
            StepView::Send(wire_line("STATION "@ + uid)),
        ),
        (available matches Some(offered) && !offered.contains(uid)) ==> after_listing(
            SourceView::Network(uid),
            host,
            software,
            available,
        ).0 is Over,
{
    reveal_strlit("STATION ");
    reveal_strlit("*");
    reveal_strlit("STATION *");
    assert("STATION "@ + "*"@ =~= "STATION *"@);
}

/// The conversation goes greeting, introduction, list, station, data: at each
/// step the answer that was owed leads on to the next command, and any other
/// ends it with the fault.
pub proof fn law_the_conversation_goes_step_by_step(
    source: SourceView,
    host: Seq<char>,
    software: Seq<char>,
    named: Seq<char>,
    line: Seq<u8>,
)
    requires
        line.len() > 0,
    ensures
        next(source, host, StageView::Greeting, EventView::Line(line)) == (
            StageView::Introduced { software: line_text(line) },
            StepView::Read,
        ),
        begins_with(software, "SeedLink"@) ==> next(
            source,
            host,
            StageView::Introduced { software },
            EventView::Line(line),
        ) == (
            StageView::Listing { software, xml: Seq::empty(), packets: 0 },
            StepView::Send("INFO STATIONS\r\n"@),
        ),
        !begins_with(software, "SeedLink"@) ==> next(
            source,
            host,
            StageView::Introduced { software },
            EventView::Line(line),
        ) == (
            StageView::Over,
            StepView::Fail(debug_text(software) + " does not look like a SeedLink server"@),
        ),
        line_text(line) == "OK"@ ==> next(
            source,
            host,
            StageView::Naming { software, named },
            EventView::Line(line),
        ) == (StageView::Asking { software, named }, StepView::Send("DATA\r\n"@)),
        line_text(line) != "OK"@ ==> next(
            source,
            host,
            StageView::Naming { software, named },
            EventView::Line(line),
        ) == (
            StageView::Over,
            StepView::Fail(
                reply_fault("STATION "@ + station_of(source), line_text(line))->0,
            ),
        ),
        line_text(line) == "OK"@ ==> next(
            source,
            host,
            StageView::Asking { software, named },
            EventView::Line(line),
        ) == (
            StageView::Streaming,
            StepView::Begin { line: "END\r\n"@, server: software, station: named },
        ),
        line_text(line) != "OK"@ ==> next(
            source,
            host,
            StageView::Asking { software, named },
            EventView::Line(line),
        ) == (StageView::Over, StepView::Fail(reply_fault("DATA"@, line_text(line))->0)),
{
    reveal_strlit("\r\n");
    reveal_strlit("INFO STATIONS");
    reveal_strlit("INFO STATIONS\r\n");
    reveal_strlit("DATA");
    reveal_strlit("DATA\r\n");
    reveal_strlit("END");
    reveal_strlit("END\r\n");
    assert(wire_line("INFO STATIONS"@) =~= "INFO STATIONS\r\n"@);
    assert(wire_line("DATA"@) =~= "DATA\r\n"@);
    assert(wire_line("END"@) =~= "END\r\n"@);
}

/// A server that closes the connection, or a connection that fails, ends the
/// conversation with the reason; only a list that breaks off does not, since
/// one that could not be read says nothing either way.
pub proof fn law_a_lost_connection_ends_the_conversation(
    source: SourceView,
    host: Seq<char>,
    stage: StageView,
    reason: Seq<char>,
)
    ensures
        awaits(stage, EventView::Line(Seq::empty())) ==> next(
            source,
            host,
            stage,
            EventView::Line(Seq::empty()),
        ) == (
            StageView::Over,
            StepView::Fail("the server closed the connection during the handshake"@),
        ),
        !(stage is Listing) ==> next(source, host, stage, EventView::Lost(reason)) == (
            StageView::Over,
            StepView::Fail(reason),
        ),
        stage matches StageView::Listing { software, .. } ==> next(
            source,
            host,
            stage,
            EventView::Lost(reason),
        ) == after_listing(source, host, software, None),
{
}

/// The list of stations is read packet by packet until it closes or has run to
/// its limit, and then decides on what all of its packets said; a packet of
/// another kind leaves it unread.
pub proof fn law_the_list_is_read_to_its_end(
    source: SourceView,
    host: Seq<char>,
    software: Seq<char>,
    xml: Seq<char>,
    packets: int,
    packet: Seq<u8>,
)
    ensures
        kind_of(packet) is Info && !contains_text(xml + info_text(packet), "</seedlink>"@) && packets
            + 1 < 512 ==> next(
            source,
            host,
            StageView::Listing { software, xml, packets },
            EventView::Packet(packet),
        ) == (
            StageView::Listing { software, xml: xml + info_text(packet), packets: packets + 1 },
            StepView::Read,
        ),
        kind_of(packet) is Info && (contains_text(xml + info_text(packet), "</seedlink>"@) || packets
            + 1 >= 512) ==> next(
            source,
            host,
            StageView::Listing { software, xml, packets },
            EventView::Packet(packet),
        ) == after_listing(
            source,
            host,
            software,
            Some(listed_stations(xml + info_text(packet))),
        ),
        !(kind_of(packet) is Info) ==> next(
            source,
            host,
            StageView::Listing { software, xml, packets },
            EventView::Packet(packet),
        ) == after_listing(source, host, software, None),
{
}

/// A packet, a line or a failure is what a stage waits for.
pub open spec fn awaits(stage: StageView, event: EventView) -> bool {
    match event {
        EventView::Line(_) => stage is Greeting || stage is Introduced || stage is Naming
            || stage is Asking,
        EventView::Packet(packet) => stage is Listing && packet.len() == PACKET_LEN,
        EventView::Lost(_) => !(stage is Streaming) && !(stage is Over),
    }
}

/// A line is awaited at every stage but the list, which awaits packets of the
/// full length; a conversation that is done or over awaits nothing.
pub proof fn law_what_is_awaited(stage: StageView, line: Seq<u8>, reason: Seq<char>)
    ensures
        awaits(stage, EventView::Line(line)) <==> stage is Greeting || stage is Introduced || stage
            is Naming || stage is Asking,
        awaits(stage, EventView::Packet(line)) <==> stage is Listing && line.len() == 520,
        awaits(stage, EventView::Lost(reason)) <==> !(stage is Streaming || stage is Over),
{
}

/// The opening conversation with a server.
#[derive(Clone, Debug, PartialEq, Eq)]
pub struct Handshake {
    pub source: Source,
    pub host: String,
    pub stage: Stage,
}

impl Handshake {
    /// The list of stations has not run past its limit.
    pub open spec fn well_formed(self) -> bool {
        self.stage matches Stage::Listing { packets, .. } ==> packets < MAX_INFO_PACKETS
    }

    /// Opens the conversation with the server at `host`. The greeting is to be
    /// sent.
    pub fn open(source: Source, host: String) -> (r: (Self, String))
        ensures
            r.0.well_formed(),
            r.0.source == source,
            r.0.host == host,
            r.0.stage@ == StageView::Greeting,
            r.1@ == wire_line("HELLO"@),
    {
        let line = command_line("HELLO");
        (Handshake { source, host, stage: Stage::Greeting }, line)
    }

    /// Whether the server owes us a packet rather than a line.
    pub fn awaits_packet(&self) -> (r: bool)
        ensures
            r == (self.stage@ is Listing),
    {
        matches!(self.stage, Stage::Listing { .. })
    }

    fn fault(self, reason: String) -> (r: (Self, Step))
        ensures
            r.0.well_formed(),
            r.0.source == self.source,
            r.0.host == self.host,
            r.0.stage@ == StageView::Over,
            r.1@ == StepView::Fail(reason@),
    {
        (
            Handshake { source: self.source, host: self.host, stage: Stage::Over },
            Step::Fail(reason),
        )
    }

    fn listed(source: Source, host: String, software: String, available: Option<Vec<String>>) -> (r:
        (Self, Step))
        ensures
            r.0.well_formed(),
            r.0.source == source,
            r.0.host == host,
            (r.0.stage@, r.1@) == after_listing(
                source@,
                host@,
                software@,
                match available {
                    Some(names) => Some(texts(names@)),
                    None => None,
                },
            ),
    {
        let named = match (&source, &available) {
            (Source::Network { uid }, Some(names)) => {
                if !has_text(names, uid.as_str()) {
                    let mut fault = host.clone();
                    if names.len() == 0 {
                        fault.append(
                            " serves no sensors to this machine. The network server recognises an account by the address it connects from, so add this machine's public IP under Waveforms > Network SeedLink Server, or point sqcli at a sensor on your own network instead.",
                        );
                    } else {
                        fault.append(" does not serve sensor ");
                        fault.append(uid.as_str());
                        fault.append("; it offers ");
                        let offered = join(names, ", ");
                        fault.append(offered.as_str());
                    }
                    return (Handshake { source, host, stage: Stage::Over }, Step::Fail(fault));
                }
                uid.clone()
            },
            (Source::Network { uid }, None) => uid.clone(),
            (Source::Sensor { .. }, Some(names)) => if names.len() > 0 {
                names[0].clone()
            } else {
                "*".to_string()
            },
            (Source::Sensor { .. }, None) => "*".to_string(),
        };
        let mut command = "STATION ".to_string();
        command.append(source.station());
        let line = command_line(command.as_str());
        (Handshake { source, host, stage: Stage::Naming { software, named } }, Step::Send(line))
    }

    /// What to do about an event.
    pub fn step(self, event: Event) -> (r: (Self, Step))
        requires
            self.well_formed(),
            awaits(self.stage@, event@),
        ensures
            r.0.well_formed(),
            r.0.source == self.source,
            r.0.host == self.host,
            (r.0.stage@, r.1@) == next(self.source@, self.host@, self.stage@, event@),
            event@ matches EventView::Line(line) ==> (line.len() > 0 ==> reads_plainly(line)),
            event@ matches EventView::Packet(packet) ==> (kind_of(packet) == PacketKind::Info
                ==> reads_plainly(packet.skip(PACKET_HEADER_LEN as int))),
    {
        let Handshake { source, host, stage } = self;
        match event {
            Event::Lost(reason) => match stage {
                Stage::Listing { software, .. } => Handshake::listed(source, host, software, None),
                _ => Handshake { source, host, stage }.fault(reason),
            },
            Event::Packet(packet) => match stage {
                Stage::Listing { software, xml, packets } => {
                    if packet_kind(packet.as_slice()) != PacketKind::Info {
                        return Handshake::listed(source, host, software, None);
                    }
                    let mut more = xml;
                    let text = read_info(packet.as_slice());
                    more.append(text.as_str());
                    if contains(more.as_str(), "</seedlink>") || packets + 1 >= MAX_INFO_PACKETS {
                        let names = station_names(more.as_str());
                        return Handshake::listed(source, host, software, Some(names));
                    }
                    (
                        Handshake {
                            source,
                            host,
                            stage: Stage::Listing { software, xml: more, packets: packets + 1 },
                        },
                        Step::Read,
                    )
                },
                _ => (Handshake { source, host, stage }, Step::Read),
            },
            Event::Line(line) => {
                let text = match read_line(&line) {
                    Ok(text) => text,
                    Err(closed) => {
                        return Handshake { source, host, stage }.fault(closed);
                    },
                };
                match stage {
                    Stage::Greeting => (
                        Handshake { source, host, stage: Stage::Introduced { software: text } },
                        Step::Read,
                    ),
                    Stage::Introduced { software } => match check_greeting(software.as_str()) {
                        Err(fault) => Handshake { source, host, stage: Stage::Over }.fault(fault),
                        Ok(_) => (
                            Handshake {
                                source,
                                host,
                                stage: Stage::Listing { software, xml: String::new(), packets: 0 },
                            },
                            Step::Send(command_line("INFO STATIONS")),
                        ),
                    },
                    Stage::Naming { software, named } => {
                        let mut command = "STATION ".to_string();
                        command.append(source.station());
                        match check_reply(command.as_str(), text.as_str()) {
                            Err(fault) => Handshake { source, host, stage: Stage::Over }.fault(
                                fault,
                            ),
                            Ok(_) => (
                                Handshake {
                                    source,
                                    host,
                                    stage: Stage::Asking { software, named },
                                },
                                Step::Send(command_line("DATA")),
                            ),
                        }
                    },
                    Stage::Asking { software, named } => match check_reply("DATA", text.as_str()) {
                        Err(fault) => Handshake { source, host, stage: Stage::Over }.fault(fault),
                        Ok(_) => (
                            Handshake { source, host, stage: Stage::Streaming },
                            Step::Begin {
                                line: command_line("END"),
                                server: software,
                                station: named,
                            },
                        ),
                    },
                    _ => (Handshake { source, host, stage }, Step::Read),
                }
            },
        }
    }
}

/// A conversation is as it should be unless it lists stations past the limit.
pub proof fn law_only_an_endless_list_is_amiss(handshake: Handshake)
    ensures
        !(handshake.stage is Listing) ==> handshake.well_formed(),
        handshake.stage matches Stage::Listing { packets, .. } ==> (handshake.well_formed()
            <==> packets < 512),
{
}

/// Past its introduction, the server of a conversation calls itself a SeedLink
/// server, and the station of a network server is the sensor we want.
pub open spec fn settled(source: SourceView, stage: StageView) -> bool {
    let fits = |named: Seq<char>| source matches SourceView::Network(uid) ==> named == uid;
    match stage {
        StageView::Listing { software, .. } => begins_with(software, "SeedLink"@),
        StageView::Naming { software, named } => begins_with(software, "SeedLink"@) && fits(named),
        StageView::Asking { software, named } => begins_with(software, "SeedLink"@) && fits(named),
        _ => true,
    }
}

/// Every conversation stays settled, so data is only ever taken from a server
/// that calls itself SeedLink, and a network server is only ever asked for the
/// sensor we want.
pub proof fn law_data_comes_from_a_seedlink_server(
    source: SourceView,
    host: Seq<char>,
    stage: StageView,
    event: EventView,
)
    requires
        settled(source, stage),
        awaits(stage, event),
    ensures
        settled(source, next(source, host, stage, event).0),
        next(source, host, stage, event).1 matches StepView::Begin { server, station, .. } ==> {
            &&& begins_with(server, "SeedLink"@)
            &&& source matches SourceView::Network(uid) ==> station == uid
        },
{
}

/// Packets follow only once the server accepted the request for data, and that
/// only goes out once it accepted the station.
pub proof fn law_packets_follow_two_acceptances(
    source: SourceView,
    host: Seq<char>,
    stage: StageView,
    event: EventView,
)
    requires
        awaits(stage, event),
    ensures
        next(source, host, stage, event).0 is Streaming ==> stage is Asking && (
        event matches EventView::Line(line) && line_text(line) == "OK"@),
        next(source, host, stage, event).0 is Asking ==> stage is Naming && (
        event matches EventView::Line(line) && line_text(line) == "OK"@),
{
}

/// A list of stations is read no further than its limit: the last packet it may
/// have is not followed by another.
pub proof fn law_a_list_of_stations_ends(
    source: SourceView,
    host: Seq<char>,
    software: Seq<char>,
    xml: Seq<char>,
    packets: int,
    packet: Seq<u8>,
)
    requires
        0 <= packets < MAX_INFO_PACKETS,
    ensures
        next(
            source,
            host,
            StageView::Listing { software, xml, packets },
            EventView::Packet(packet),
        ).0 matches StageView::Listing { packets: read, .. } ==> read == packets + 1 && read
            < MAX_INFO_PACKETS,
{
}

/// A network server that lists its stations without the sensor we want is given
/// up, and one whose list could not be read is asked all the same.
pub proof fn law_the_list_decides_where_it_was_read(
    uid: Seq<char>,
    host: Seq<char>,
    software: Seq<char>,
    names: Seq<Seq<char>>,
)
    ensures
        !names.contains(uid) ==> after_listing(
            SourceView::Network(uid),
            host,
            software,
            Some(names),
        ).1 is Fail,
        names.contains(uid) ==> after_listing(
            SourceView::Network(uid),
            host,
            software,
            Some(names),
        ).1 == StepView::Send(wire_line("STATION "@ + uid)),
        after_listing(SourceView::Network(uid), host, software, None).1 == StepView::Send(
            wire_line("STATION "@ + uid),
        ),
{
}

/// What to say where a server cannot be reached. A sensor ships with its server
/// switched off, which is by far the likeliest reason it is not answering.
pub fn unreachable(source: &Source, host: &str, port: u16, reason: &str) -> (text: String)
    ensures
        text@ == (match source@ {
            SourceView::Sensor(_) => "could not reach "@ + host@ + ":"@ + decimal(port as int)
                + " ("@ + reason@
                + "). A sensor only serves SeedLink once it is started under Waveform access > SeedLink Server in its web interface."@,
            SourceView::Network(_) => "could not reach "@ + host@ + ":"@ + decimal(port as int)
                + ": "@ + reason@,
        }),
{
    let mut text = "could not reach ".to_string();
    text.append(host);
    text.append(":");
    let number = digits_text(port as u128);
    text.append(number.as_str());
    match source {
        Source::Sensor { .. } => {
            text.append(" (");
            text.append(reason);
            text.append(
                "). A sensor only serves SeedLink once it is started under Waveform access > SeedLink Server in its web interface.",
            );
        },
        Source::Network { .. } => {
            text.append(": ");
            text.append(reason);
        },
    }
    text
}

/// What to say where the opening conversation takes too long.
pub fn handshake_timed_out(host: &str) -> (text: String)
    ensures
        text@ == host@
            + " accepted the connection but did not finish the SeedLink handshake within "@
            + decimal(HANDSHAKE_TIMEOUT as int) + "s"@,
{
    let mut text = host.to_string();
    text.append(" accepted the connection but did not finish the SeedLink handshake within ");
    let seconds = digits_text(HANDSHAKE_TIMEOUT as u128);
    text.append(seconds.as_str());
    text.append("s");
    text
}

/// Whether a packet of the stream carries a record. An `INFO` answer we did not
/// ask for carries none; a packet of another kind ends the stream.
pub fn carries_record(packet: &[u8]) -> (r: Result<bool, String>)
    ensures
        match kind_of(packet@) {
            PacketKind::Info => r == Ok::<bool, String>(false),
            PacketKind::Record => r == Ok::<bool, String>(true),
            PacketKind::Foreign => r matches Err(e) && e@
                == "the server sent something that is not a SeedLink packet"@,
        },
{
    match packet_kind(packet) {
        PacketKind::Info => Ok(false),
        PacketKind::Record => Ok(true),
        PacketKind::Foreign => Err(
            "the server sent something that is not a SeedLink packet".to_string(),
        ),
    }
}

/// What reading the bytes of a packet gave.
#[derive(Debug, PartialEq, Eq)]
pub enum Reading {
    /// They hold no header.
    Unreadable(String),
    /// They hold less than a whole record.
    Partial,
    /// They hold a record, whose samples may still be unreadable.
    Record { header: RecordHeader, samples: Result<Vec<Real>, String> },
}

/// The chunk is what a record carries.
pub open spec fn carries(chunk: Chunk, header: RecordHeader, samples: Vec<Real>) -> bool {
    &&& chunk.stream_id@ == header.stream()
    &&& chunk.channel@ == header.channel@
    &&& chunk.start == header.start
    &&& chunk.sample_rate == header.sample_rate
    &&& chunk.samples == samples
}

/// What a record carries is its samples, at its rate and from its start, under
/// its stream and its channel.
pub proof fn law_a_chunk_is_its_record(chunk: Chunk, header: RecordHeader, samples: Vec<Real>)
    requires
        carries(chunk, header, samples),
    ensures
        chunk.stream_id@ == header.network@ + "."@ + header.station@ + "."@ + header.location@
            + "."@ + header.channel@,
        chunk.channel@ == header.channel@,
        chunk.start == header.start,
        chunk.sample_rate == header.sample_rate,
        chunk.samples@ == samples@,
{
}

/// The servers listen on one port, and the handshake is given longer than the
/// wait before another is tried.
pub proof fn law_how_long_a_server_is_waited_for()
    ensures
        DEFAULT_PORT == 18000,
        RECONNECT_DELAY == 3,
        HANDSHAKE_TIMEOUT == 15,
        RECONNECT_DELAY < HANDSHAKE_TIMEOUT,
        MAX_INFO_PACKETS == 512,
{
}

/// The chunk that a record carries.
pub fn record_chunk(header: &RecordHeader, samples: Vec<Real>) -> (chunk: Chunk)
    ensures
        carries(chunk, *header, samples),
{
    Chunk {
        stream_id: header.stream_id(),
        channel: header.channel.clone(),
        start: header.start,
        sample_rate: header.sample_rate,
        samples,
    }
}

/// Turn one record into the samples it carries. Log and status records ride the
/// same streams as waveforms and carry none.
pub fn chunk_from_record(reading: Reading) -> (r: Result<Option<Chunk>, String>)
    ensures
        match reading {
            Reading::Unreadable(e) => r == Err::<Option<Chunk>, String>(e),
            Reading::Partial => r matches Err(e) && e@
                == "a packet held less than a whole record"@,
            Reading::Record { header, samples } => match samples {
                Err(e) => r == Err::<Option<Chunk>, String>(e),
                Ok(list) => if list@.len() == 0 {
                    r == Ok::<Option<Chunk>, String>(None)
                } else {
                    r matches Ok(Some(chunk)) && carries(chunk, header, list)
                },
            },
        },
{
    match reading {
        Reading::Unreadable(e) => Err(e),
        Reading::Partial => Err("a packet held less than a whole record".to_string()),
        Reading::Record { header, samples } => match samples {
            Err(e) => Err(e),
            Ok(list) => if list.len() == 0 {
                Ok(None)
            } else {
                Ok(Some(record_chunk(&header, list)))
            },
        },
    }
}

/// What to tell the view about a record of the stream, if anything. A single
/// unreadable record does not take the view down with it.
pub fn record_update(reading: Reading) -> (r: Option<Update>)
    ensures
        match reading {
            Reading::Unreadable(e) => r matches Some(Update::Notice(text)) && text@
                == "skipped a record: "@ + e@,
            Reading::Partial => r matches Some(Update::Notice(text)) && text@
                == "skipped a record: "@ + "a packet held less than a whole record"@,
            Reading::Record { header, samples } => match samples {
                Err(e) => r matches Some(Update::Notice(text)) && text@ == "skipped a record: "@
                    + e@,
                Ok(list) => if list@.len() == 0 {
                    r is None
                } else {
                    r matches Some(Update::Data(chunk)) && carries(chunk, header, list)
                },
            },
        },
{
    match chunk_from_record(reading) {
        Err(e) => {
            let mut text = "skipped a record: ".to_string();
            text.append(e.as_str());
            Some(Update::Notice(text))
        },
        Ok(None) => None,
        Ok(Some(chunk)) => Some(Update::Data(chunk)),
    }
}

} // verus!
