//! What a live transport hands the view, whichever way the data came in.
//!
//! Three routes carry the same waveforms. The websocket goes through the
//! backend the way the web frontend does and is used unless told otherwise;
//! SeedLink is the seismological standard and the only route to a sensor on the
//! local network; FDSN polls the archive, which lags but asks nothing of the
//! sensor. They differ only in how the samples arrive, so they all report
//! through the types here.
use vstd::prelude::*;

use crate::number::Real;
use crate::timestamp::Timestamp;

verus! {

/// One channel's worth of samples, as a single record or frame carried them.
#[derive(Clone, Debug, PartialEq, Eq)]
pub struct Chunk {
    /// `NET.STA.LOC.CHAN` where the transport knows it, the sensor and the
    /// channel where it does not; this is what the view keys its panels on.
    pub stream_id: String,
    pub channel: String,
    /// When the first sample was recorded.
    pub start: Timestamp,
    /// Samples per second.
    pub sample_rate: Real,
    pub samples: Vec<Real>,
}

/// What a transport tells the view about.
#[derive(Clone, Debug, PartialEq, Eq)]
pub enum Update {
    /// The connection is up; the server named itself.
    Connected { server: String, station: String },
    Data(Chunk),
    /// Something worth showing that did not end the connection.
    Notice(String),
    /// The connection is gone and the transport is about to try again.
    Disconnected(String),
}

/// Which way the live data comes in.
#[derive(Clone, Copy, Debug, PartialEq, Eq, Structural)]
pub enum Transport {
    /// Through the backend, the way the web frontend does it.
    WebSocket,
    /// Through a SeedLink server: the backend's relay, or a sensor's own.
    SeedLink,
    /// By asking the FDSN archive over and over.
    Fdsn,
}

impl Transport {
    /// How this route is named in the interface and in errors.
    pub open spec fn spec_name(self) -> Seq<char> {
        match self {
            Transport::WebSocket => "websocket"@,
            Transport::SeedLink => "seedlink"@,
            Transport::Fdsn => "fdsn"@,
        }
    }

    /// How to name this route in the interface and in errors.
    pub fn name(self) -> (r: &'static str)
        ensures
            r@ == self.spec_name(),
    {
        match self {
            Transport::WebSocket => "websocket",
            Transport::SeedLink => "seedlink",
            Transport::Fdsn => "fdsn",
        }
    }

    /// Whether the route goes through the backend, which knows sensors only by
    /// UID and so cannot reach one named by address.
    pub fn needs_uid(self) -> (r: bool)
        ensures
            r == (self is WebSocket || self is Fdsn),
    {
        matches!(self, Transport::WebSocket | Transport::Fdsn)
    }
}

/// Every route has a name of its own, in lower-case letters.
pub proof fn law_routes_have_names_of_their_own(one: Transport, other: Transport)
    ensures
        one.spec_name() == other.spec_name() ==> one == other,
        one.spec_name().len() == (match one {
            Transport::WebSocket => 9nat,
            Transport::SeedLink => 8,
            Transport::Fdsn => 4,
        }),
        forall|i: int|
            0 <= i < one.spec_name().len() ==> 'a' <= #[trigger] one.spec_name()[i] <= 'z',
{
    reveal_strlit("websocket");
    reveal_strlit("seedlink");
    reveal_strlit("fdsn");
    assert("websocket"@.len() == 9 && "seedlink"@.len() == 8 && "fdsn"@.len() == 4);
}

/// What to tell the view once a connection has ended, if it is to be opened
/// again. One that ended cleanly ended because the view is gone, and there is
/// nothing to open it again for.
pub fn connection_ended(outcome: Result<(), String>) -> (r: Option<Update>)
    ensures
        match outcome {
            Ok(_) => r is None,
            Err(reason) => r == Some(Update::Disconnected(reason)),
        },
{
    match outcome {
        Ok(_) => None,
        Err(reason) => Some(Update::Disconnected(reason)),
    }
}

} // verus!
