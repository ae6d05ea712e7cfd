//! The headers of miniSEED records.
use vstd::prelude::*;

use crate::number::Real;
use crate::text::{join_texts, law_joining_goes_on};
use crate::timestamp::Timestamp;

verus! {

/// What a miniSEED record says of itself.
#[derive(Clone, Debug, PartialEq, Eq)]
pub struct RecordHeader {
    pub network: String,
    pub station: String,
    pub location: String,
    pub channel: String,
    /// When the first sample was recorded.
    pub start: Timestamp,
    /// The length of the record in bytes.
    pub length: usize,
    /// How many samples the record carries.
    pub samples: usize,
    /// Samples per second.
    pub sample_rate: Real,
    pub data_offset: usize,
    pub encoding: Option<u8>,
    pub data_big_endian: bool,
}

impl RecordHeader {
    /// The stream the record belongs to, `NET.STA.LOC.CHAN`.
    pub open spec fn stream(self) -> Seq<char> {
        self.network@ + "."@ + self.station@ + "."@ + self.location@ + "."@ + self.channel@
    }

    /// The stream the record belongs to, `NET.STA.LOC.CHAN`.
    pub fn stream_id(&self) -> (id: String)
        ensures
            id@ == self.stream(),
    {
        let mut id = self.network.clone();
        id.append(".");
        id.append(self.station.as_str());
        id.append(".");
        id.append(self.location.as_str());
        id.append(".");
        id.append(self.channel.as_str());
        id
    }
}

/// A stream is the network, the station, the location and the channel with dots
/// between them.
pub proof fn law_a_stream_is_its_four_codes(header: RecordHeader)
    ensures
        header.stream() == join_texts(
            seq![header.network@, header.station@, header.location@, header.channel@],
            "."@,
        ),
{
    let n = seq![header.network@];
    let s = seq![header.station@];
    let l = seq![header.location@];
    let c = seq![header.channel@];
    law_joining_goes_on(n, s, "."@);
    law_joining_goes_on(n + s, l, "."@);
    law_joining_goes_on(n + s + l, c, "."@);
    law_joining_goes_on(s, l, "."@);
    law_joining_goes_on(l, c, "."@);
    law_joining_goes_on(c, n, "."@);
    assert(n + s + l + c =~= seq![
        header.network@,
        header.station@,
        header.location@,
        header.channel@,
    ]);
}

/// Records of streams that differ in the channel alone differ in the stream.
pub proof fn law_channels_are_streams_of_their_own(one: RecordHeader, other: RecordHeader)
    requires
        one.network@ == other.network@,
        one.station@ == other.station@,
        one.location@ == other.location@,
    ensures
        one.stream() == other.stream() <==> one.channel@ == other.channel@,
{
    let front = one.network@ + "."@ + one.station@ + "."@ + one.location@ + "."@;
    assert(one.stream().skip(front.len() as int) =~= one.channel@);
    assert(other.stream().skip(front.len() as int) =~= other.channel@);
}

} // verus!
