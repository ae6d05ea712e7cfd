//! How the live view reaches a sensor.
use vstd::prelude::*;

use crate::seedlink::{is_address, Source, SourceError, SourceView};
use crate::stream::Transport;
use crate::text::{all_alphanumeric, debug_text, strip_both, trim_both, Edge};
use crate::waveforms::is_uid;

verus! {

/// How many records may queue up before the reader waits for the view. A
/// sensor sends a handful a second, so this is seconds of slack, not samples.
pub const UPDATE_QUEUE: usize = 256;

/// The route to a source. A sensor named by address is one on this network, and
/// the backend has no way to reach it; its own SeedLink server is the only way
/// in, so there is no route where another one was chosen.
pub open spec fn route(source: SourceView, chosen: Option<Transport>) -> Option<Transport> {
    match (source, chosen) {
        (SourceView::Sensor(_), Some(Transport::WebSocket | Transport::Fdsn)) => None,
        (SourceView::Sensor(_), _) => Some(Transport::SeedLink),
        (SourceView::Network(_), Some(transport)) => Some(transport),
        (SourceView::Network(_), None) => Some(Transport::WebSocket),
    }
}

/// Why a sensor cannot be watched.
#[derive(Clone, Debug, PartialEq, Eq)]
pub enum WatchError {
    /// The argument names no sensor.
    NoSource(SourceError),
    /// The argument is an address, and the chosen route needs a UID.
    NoRoute { sensor: String, chosen: Transport },
}

impl WatchError {
    /// What to tell the user.
    pub fn to_text(&self) -> (r: String)
        ensures
            r@ == (match self {
                WatchError::NoSource(SourceError::NoSensor) => "no sensor given"@,
                WatchError::NoSource(SourceError::Neither(arg)) => debug_text(arg@)
                    + " is neither a sensor UID nor an address, expected letters and digits or a host like 192.168.1.20"@,
                WatchError::NoRoute { sensor, chosen } => sensor@
                    + " is an address on your network, and --"@ + chosen.spec_name()
                    + " goes through the backend, which knows sensors by UID. Drop the flag to read the sensor directly, or name it by its UID."@,
            }),
    {
        match self {
            WatchError::NoSource(e) => e.to_text(),
            WatchError::NoRoute { sensor, chosen } => {
                let mut text = sensor.clone();
                text.append(" is an address on your network, and --");
                text.append(chosen.name());
                text.append(
                    " goes through the backend, which knows sensors by UID. Drop the flag to read the sensor directly, or name it by its UID.",
                );
                text
            },
        }
    }
}

/// How a sensor is watched.
#[derive(Clone, Debug, PartialEq, Eq)]
pub struct WatchPlan {
    pub source: Source,
    pub transport: Transport,
    /// What the sensor is called on the chosen route.
    pub uid: String,
    /// What to call the sensor and the route in the header.
    pub label: String,
}

/// The plan for the sensor that a text names.
pub open spec fn plans(plan: WatchPlan, named: Seq<char>, chosen: Option<Transport>) -> bool {
    &&& plan.source@ == if is_address(named) {
        SourceView::Sensor(named)
    } else {
        SourceView::Network(named)
    }
    &&& route(plan.source@, chosen) == Some(plan.transport)
    &&& plan.uid@ == named
    &&& plan.label@ == named + " · "@ + plan.transport.spec_name()
}

/// Settle how to reach the sensor that the command line names.
pub fn plan_watch(sensor: &str, chosen: Option<Transport>) -> (r: Result<WatchPlan, WatchError>)
    ensures
        ({
            let named = strip_both(sensor@, Edge::White);
            if named.len() == 0 {
                r == Err::<WatchPlan, WatchError>(WatchError::NoSource(SourceError::NoSensor))
            } else if !is_address(named) && !all_alphanumeric(named) {
                r matches Err(WatchError::NoSource(SourceError::Neither(text))) && text@ == named
            } else if is_address(named) && route(SourceView::Sensor(named), chosen) is None {
                r matches Err(WatchError::NoRoute { sensor: text, chosen: transport }) && text@
                    == sensor@ && chosen == Some(transport)
            } else {
                r matches Ok(plan) && plans(plan, named, chosen)
            }
        }),
{
    let source = match Source::from_arg(sensor) {
        Ok(source) => source,
        Err(e) => return Err(WatchError::NoSource(e)),
    };
    let local = matches!(source, Source::Sensor { .. });
    let transport = match chosen {
        Some(transport) => transport,
        None => if local {
            Transport::SeedLink
        } else {
            Transport::WebSocket
        },
    };
    if local && transport.needs_uid() {
        return Err(WatchError::NoRoute { sensor: sensor.to_string(), chosen: transport });
    }
    let uid = trim_both(sensor, Edge::White);
    let mut label = uid.clone();
    label.append(" · ");
    label.append(transport.name());
    Ok(WatchPlan { source, transport, uid, label })
}

/// Whether a route goes through the backend, which needs an account. SeedLink
/// asks for no account at all.
pub fn needs_account(transport: Transport) -> (r: bool)
    ensures
        r == !(transport is SeedLink),
{
    !matches!(transport, Transport::SeedLink)
}

/// What to say where a route needs an account and there is none.
pub fn account_fault(transport: Transport, missing: &str) -> (r: String)
    ensures
        r@ == transport.spec_name() + " goes through the backend, which needs an account: "@
            + missing@,
{
    let mut text = transport.name().to_string();
    text.append(" goes through the backend, which needs an account: ");
    text.append(missing);
    text
}

/// A sensor named by address is read over SeedLink or not at all.
pub proof fn law_an_address_is_read_over_seedlink(host: Seq<char>, chosen: Option<Transport>)
    ensures
        route(SourceView::Sensor(host), chosen) matches Some(transport) ==> transport is SeedLink,
        route(SourceView::Sensor(host), None) == Some(Transport::SeedLink),
        route(SourceView::Sensor(host), Some(Transport::SeedLink)) == Some(Transport::SeedLink),
        route(SourceView::Sensor(host), chosen) is None <==> chosen == Some(Transport::WebSocket)
            || chosen == Some(Transport::Fdsn),
{
}

/// The backend is asked only for a UID that it accepts: what is planned through
/// it is letters and digits.
pub proof fn law_the_backend_is_asked_for_a_uid(
    plan: WatchPlan,
    named: Seq<char>,
    chosen: Option<Transport>,
)
    requires
        named.len() > 0,
        is_address(named) || all_alphanumeric(named),
        plans(plan, named, chosen),
    ensures
        !(plan.transport is SeedLink) ==> is_uid(plan.uid@),
{
}

/// What is planned is what was named: the source, the UID and the front of the
/// label are the name, an address goes over SeedLink, a UID over the route that
/// was chosen and the websocket otherwise, and the label ends with the route.
pub proof fn law_a_plan_is_for_what_was_named(
    plan: WatchPlan,
    named: Seq<char>,
    chosen: Option<Transport>,
)
    requires
        plans(plan, named, chosen),
    ensures
        plan.uid@ == named,
        is_address(named) ==> plan.source@ == SourceView::Sensor(named) && plan.transport
            is SeedLink && (chosen is None || chosen == Some(Transport::SeedLink)),
        !is_address(named) ==> plan.source@ == SourceView::Network(named) && (match chosen {
            Some(transport) => plan.transport == transport,
            None => plan.transport is WebSocket,
        }),
        plan.label@ == named + " · "@ + plan.transport.spec_name(),
{
}

/// The websocket is the route to a UID unless another one is chosen.
pub proof fn law_a_uid_goes_where_it_is_told(uid: Seq<char>, chosen: Option<Transport>)
    ensures
        chosen matches Some(transport) ==> route(SourceView::Network(uid), chosen) == Some(
            transport,
        ),
        chosen is None ==> route(SourceView::Network(uid), chosen) == Some(Transport::WebSocket),
{
}

} // verus!
