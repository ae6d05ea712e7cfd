//! The live route the web frontend uses: a websocket through the backend.
//!
//! The backend relays what the sensors publish, so this reaches any sensor the
//! account may read without a direct line to it and without the IP registration
//! SeedLink's relay asks for.
//!
//! Two things have to happen for samples to flow. The client subscribes to the
//! sensor's `WaveformData` data product over the websocket, and the sensor is
//! told to start streaming with a `StreamWaveformsTrigger` action. A sensor
//! stops streaming a minute after it was last asked, so the trigger is repeated
//! for as long as the view is open.
//!
//! Samples arrive per channel as base64, gzipped where the frame says so,
//! holding little-endian 32 bit integers for raw counts and floats for anything
//! already converted to ground motion.
use vstd::prelude::*;

use crate::number::{law_rank_is_the_order_of_numbers, whole, widened, Real};
use crate::number::law_small_numbers_are_counted_by_their_bits;
use crate::stream::{Chunk, Update};
use crate::text::{contains, digits_text, lossy, quoted, same_text, trim_back, Edge};
use crate::text::{contains_text, debug_text, decimal, lossy_text, strip_back};
use crate::text::law_a_needle_stands_between_what_surrounds_it;
use crate::text::{all_alphanumeric, join_texts, reads_plainly, stands_at, text_le};
use crate::text_map::strictly_ordered;
use crate::timestamp::{formatted_time, time_before, zoned_time};
use crate::timestamp::{read_formatted, read_zoned, step_back, Timestamp, ENDTIME_FORMAT};
use crate::timestamp::{CALENDAR_FIRST, CALENDAR_LAST, NANOS};

verus! {

/// The websocket the frontend talks to.
pub const WS_PATH: &'static str = "wss://api.network.quakesaver.net/api/v1/ws";

/// The data product that carries samples.
pub const WAVEFORM_PRODUCT: &'static str = "WaveformData";

/// The action that makes a sensor stream.
pub const STREAM_ACTION: &'static str = "StreamWaveformsTrigger";

/// Seconds between two triggers. A sensor gives up a minute after the last one,
/// so this leaves room to spare.
pub const RETRIGGER_INTERVAL: u64 = 45;

/// Seconds to wait before trying again after the connection drops.
pub const RECONNECT_DELAY: u64 = 3;

/// Why a frame cannot be used.
#[derive(Clone, Debug, PartialEq, Eq)]
pub enum FrameError {
    /// The time between two samples is not above zero.
    Spacing,
    /// The end time cannot be read, for the given reason.
    Endtime { text: String, reason: String },
    /// The samples of a channel are not valid base64.
    Base64(String),
    /// The samples of a channel do not decompress.
    Gzip(String),
    /// The samples of a channel hold so many bytes, which are no whole number
    /// of samples.
    Ragged(usize),
}

/// An error by the texts it holds.
pub enum FrameFault {
    Spacing,
    Endtime { text: Seq<char>, reason: Seq<char> },
    Base64(Seq<char>),
    Gzip(Seq<char>),
    Ragged(nat),
}

impl View for FrameError {
    type V = FrameFault;

    open spec fn view(&self) -> FrameFault {
        match self {
            FrameError::Spacing => FrameFault::Spacing,
            FrameError::Endtime { text, reason } => FrameFault::Endtime {
                text: text@,
                reason: reason@,
            },
            FrameError::Base64(reason) => FrameFault::Base64(reason@),
            FrameError::Gzip(reason) => FrameFault::Gzip(reason@),
            FrameError::Ragged(bytes) => FrameFault::Ragged(*bytes as nat),
        }
    }
}

/// What to say of a fault. The sample spacing of the frame is given in text.
pub open spec fn fault_text(fault: FrameFault, spacing: Seq<char>) -> Seq<char> {
    match fault {
        FrameFault::Spacing => "frame states an impossible sample spacing of "@ + spacing,
        FrameFault::Endtime { text, reason } => "cannot read the frame's end time "@ + debug_text(
            text,
        ) + ": "@ + reason,
        FrameFault::Base64(reason) => "a channel's samples were not valid base64: "@ + reason,
        FrameFault::Gzip(reason) => "a channel's samples would not decompress: "@ + reason,
        FrameFault::Ragged(bytes) => "a channel carried "@ + decimal(bytes as int)
            + " bytes, not a whole number of samples"@,
    }
}

/// What is said of a fault holds what is known of it, between words that are the
/// same for every fault of its sort; an error stands for the fault it tells of.
pub proof fn law_a_fault_says_what_is_known_of_it(error: FrameError)
    ensures
        exists|a: Seq<char>, b: Seq<char>, c: Seq<char>, d: Seq<char>, e: Seq<char>, f: Seq<char>|
            #![trigger a + b + c + d + e + f]
            forall|spacing: Seq<char>, text: Seq<char>, reason: Seq<char>, bytes: nat| {
                &&& fault_text(FrameFault::Spacing, spacing) == a + spacing
                &&& #[trigger] fault_text(FrameFault::Endtime { text, reason }, spacing) == b
                    + debug_text(text) + ": "@ + reason
                &&& fault_text(FrameFault::Base64(reason), spacing) == c + reason
                &&& fault_text(FrameFault::Gzip(reason), spacing) == d + reason
                &&& #[trigger] fault_text(FrameFault::Ragged(bytes), spacing) == e + decimal(
                    bytes as int,
                ) + f
            },
        error is Spacing <==> error@ is Spacing,
        error matches FrameError::Endtime { text, reason } ==> error@ == (FrameFault::Endtime {
            text: text@,
            reason: reason@,
        }),
        error matches FrameError::Base64(reason) ==> error@ == FrameFault::Base64(reason@),
        error matches FrameError::Gzip(reason) ==> error@ == FrameFault::Gzip(reason@),
        error matches FrameError::Ragged(bytes) ==> error@ == FrameFault::Ragged(bytes as nat),
{
    let a = "frame states an impossible sample spacing of "@;
    let b = "cannot read the frame's end time "@;
    let c = "a channel's samples were not valid base64: "@;
    let d = "a channel's samples would not decompress: "@;
    let e = "a channel carried "@;
    let f = " bytes, not a whole number of samples"@;
    let words = a + b + c + d + e + f;
}

impl FrameError {
    /// What to say of the error. The sample spacing of the frame is given in
    /// text.
    pub fn to_text(&self, spacing: &str) -> (r: String)
        ensures
            r@ == fault_text(self@, spacing@),
    {
        match self {
            FrameError::Spacing => {
                let mut text = "frame states an impossible sample spacing of ".to_string();
                text.append(spacing);
                text
            },
            FrameError::Endtime { text, reason } => {
                let mut r = "cannot read the frame's end time ".to_string();
                let shown = quoted(text.as_str());
                r.append(shown.as_str());
                r.append(": ");
                r.append(reason.as_str());
                r
            },
            FrameError::Base64(reason) => {
                let mut text = "a channel's samples were not valid base64: ".to_string();
                text.append(reason.as_str());
                text
            },
            FrameError::Gzip(reason) => {
                let mut text = "a channel's samples would not decompress: ".to_string();
                text.append(reason.as_str());
                text
            },
            FrameError::Ragged(bytes) => {
                let mut text = "a channel carried ".to_string();
                let count = digits_text(*bytes as u128);
                text.append(count.as_str());
                text.append(" bytes, not a whole number of samples");
                text
            },
        }
    }
}

/// The time a text spells that has no zone, by what reading it gave.
pub open spec fn plain_endtime(text: Seq<char>, read: Result<Timestamp, Seq<char>>) -> Result<
    Timestamp,
    FrameFault,
> {
    match read {
        Ok(time) => Ok(time),
        Err(reason) => Err(FrameFault::Endtime { text, reason }),
    }
}

/// The end time of a frame, with or without a zone, in UTC.
pub open spec fn endtime_of(text: Seq<char>) -> Result<Timestamp, FrameFault> {
    match zoned_time(text) {
        Some(time) => Ok(time),
        None => plain_endtime(
            text,
            formatted_time(strip_back(text, Edge::Zulu), ENDTIME_FORMAT@),
        ),
    }
}

/// A time that is read with its zone is the end time; a text that is not so
/// read is read by the plain format without the letters that mark UTC at its
/// end, and where that fails too the fault is of the whole text.
pub proof fn law_a_zone_is_kept_where_there_is_one(text: Seq<char>)
    ensures
        zoned_time(text) matches Some(time) ==> endtime_of(text) == Ok::<Timestamp, FrameFault>(
            time,
        ),
        zoned_time(text) is None ==> match formatted_time(
            strip_back(text, Edge::Zulu),
            "%Y-%m-%dT%H:%M:%S%.f"@,
        ) {
            Ok(time) => endtime_of(text) == Ok::<Timestamp, FrameFault>(time),
            Err(reason) => endtime_of(text) == Err::<Timestamp, FrameFault>(
                FrameFault::Endtime { text, reason },
            ),
        },
{
}

/// The end time of a frame, by what reading it with a zone and without one
/// gave. A zone is carried back to UTC rather than dropped.
pub fn endtime_from(text: &str, zoned: Option<Timestamp>, plain: Result<Timestamp, String>) -> (r:
    Result<Timestamp, FrameError>)
    ensures
        match (zoned, plain) {
            (Some(time), _) => r == Ok::<Timestamp, FrameError>(time),
            (None, Ok(time)) => r == Ok::<Timestamp, FrameError>(time),
            (None, Err(reason)) => r matches Err(e) && e@ == (FrameFault::Endtime {
                text: text@,
                reason: reason@,
            }),
        },
{
    match (zoned, plain) {
        (Some(time), _) => Ok(time),
        (None, Ok(time)) => Ok(time),
        (None, Err(reason)) => Err(FrameError::Endtime { text: text.to_string(), reason }),
    }
}

/// Read the frame's end time, which arrives with or without a zone.
pub fn parse_endtime(text: &str) -> (r: Result<Timestamp, FrameError>)
    ensures
        match endtime_of(text@) {
            Ok(time) => r == Ok::<Timestamp, FrameError>(time),
            Err(fault) => r matches Err(e) && e@ == fault,
        },
{
    let bare = trim_back(text, Edge::Zulu);
    endtime_from(text, read_zoned(text), read_formatted(bare.as_str(), ENDTIME_FORMAT))
}

/// The bytes that standard base64 encodes in a text, or what is wrong with it.
pub uninterp spec fn base64_bytes(text: Seq<char>) -> Result<Seq<u8>, Seq<char>>;

/// `base64::Engine::decode` of `base64::prelude::BASE64_STANDARD`: the bytes
/// that a text encodes in standard base64 with padding, or what is wrong with
/// it. Both depend on the text alone and are called by a name; nothing is said
/// of which texts are valid.
#[verifier::external_body]
fn decode_base64(text: &str) -> (r: Result<Vec<u8>, String>)
    ensures
        match r {
            Ok(bytes) => base64_bytes(text@) == Ok::<Seq<u8>, Seq<char>>(bytes@),
            Err(e) => base64_bytes(text@) == Err::<Seq<u8>, Seq<char>>(e@),
        },
{
    base64::Engine::decode(&base64::prelude::BASE64_STANDARD, text).map_err(|e| e.to_string())
}

/// What a gzip stream holds, or what is wrong with it.
pub uninterp spec fn gunzipped(bytes: Seq<u8>) -> Result<Seq<u8>, Seq<char>>;

/// `flate2::read::GzDecoder`, read to its end: the bytes that the first member
/// of a gzip stream holds, or what is wrong with it. Both depend on the stream
/// alone and are called by a name; nothing is said of which streams are valid.
#[verifier::external_body]
fn gunzip(bytes: &[u8]) -> (r: Result<Vec<u8>, String>)
    ensures
        match r {
            Ok(held) => gunzipped(bytes@) == Ok::<Seq<u8>, Seq<char>>(held@),
            Err(e) => gunzipped(bytes@) == Err::<Seq<u8>, Seq<char>>(e@),
        },
{
    let mut held = Vec::new();
    match std::io::Read::read_to_end(&mut flate2::read::GzDecoder::new(bytes), &mut held) {
        Ok(_) => Ok(held),
        Err(e) => Err(e.to_string()),
    }
}

/// The 32-bit word at a place, least significant byte first.
pub open spec fn word_at(bytes: Seq<u8>, i: int) -> int {
    bytes[4 * i] + 0x100 * bytes[4 * i + 1] + 0x1_0000 * bytes[4 * i + 2] + 0x100_0000 * bytes[4 * i
        + 3]
}

/// The integer whose two's complement is the given word.
pub open spec fn signed(word: int) -> int {
    if word < 0x8000_0000 {
        word
    } else {
        word - 0x1_0000_0000
    }
}

/// The sample that the word at a place stands for. The unit decides how the
/// word is read.
pub open spec fn sample_at(bytes: Seq<u8>, unit: Seq<char>, i: int) -> Real {
    if unit == "counts"@ {
        whole(signed(word_at(bytes, i)))
    } else {
        widened(word_at(bytes, i) as u32)
    }
}

/// The samples that bytes hold.
pub open spec fn samples_in(bytes: Seq<u8>, unit: Seq<char>) -> Result<Seq<Real>, FrameFault> {
    if bytes.len() % 4 != 0 {
        Err(FrameFault::Ragged(bytes.len()))
    } else {
        Ok(Seq::new((bytes.len() / 4) as nat, |i: int| sample_at(bytes, unit, i)))
    }
}

fn read_word(bytes: &Vec<u8>, i: usize) -> (word: u32)
    requires
        4 * i + 3 < bytes@.len(),
    ensures
        word == word_at(bytes@, i as int),
{
    let end: usize = bytes.len();
    assert(4 * i + 3 < end);
    bytes[4 * i] as u32 + 0x100 * bytes[4 * i + 1] as u32 + 0x1_0000 * bytes[4 * i + 2] as u32
        + 0x100_0000 * bytes[4 * i + 3] as u32
}

/// The samples that the unpacked bytes of a channel hold.
///
/// The unit decides what the words are: raw counts are 32 bit integers,
/// anything already converted to ground motion is 32 bit floats. Both are
/// little-endian, the order the sensors write them in.
pub fn read_samples(bytes: &Vec<u8>, unit: &str) -> (r: Result<Vec<Real>, FrameError>)
    ensures
        match samples_in(bytes@, unit@) {
            Ok(samples) => r matches Ok(list) && list@ == samples,
            Err(fault) => r matches Err(e) && e@ == fault,
        },
        r is Ok <==> bytes@.len() % 4 == 0,
        r matches Ok(list) ==> (unit@ == "counts"@ ==> forall|i: int, count: i32|
            0 <= i < list@.len() && (word_at(bytes@, i) - count) % 0x1_0000_0000 == 0
                ==> #[trigger] list@[i] == #[trigger] whole(count as int)),
{
    let end: usize = bytes.len();
    if end % 4 != 0 {
        return Err(FrameError::Ragged(end));
    }
    let counts = same_text(unit, "counts");
    let n: usize = end / 4;
    let mut samples: Vec<Real> = Vec::new();
    let mut i: usize = 0;
    while i < n
        invariant
            i <= n == bytes@.len() / 4,
            bytes@.len() == end,
            counts == (unit@ == "counts"@),
            samples@ == Seq::new(i as nat, |j: int| sample_at(bytes@, unit@, j)),
        decreases n - i,
    {
        let word: u32 = read_word(bytes, i);
        if counts {
            let count: i32 = if word < 0x8000_0000 {
                word as i32
            } else {
                (word as i64 - 0x1_0000_0000) as i32
            };
            samples.push(Real::from_count(count));
        } else {
            samples.push(Real::from_motion(word));
        }
        i += 1;
        assert(samples@ =~= Seq::new(i as nat, |j: int| sample_at(bytes@, unit@, j)));
    }
    Ok(samples)
}

/// The bytes of a 32-bit word, least significant first.
pub open spec fn word_bytes(word: int) -> Seq<u8> {
    seq![
        (word % 0x100) as u8,
        (word / 0x100 % 0x100) as u8,
        (word / 0x1_0000 % 0x100) as u8,
        (word / 0x100_0000 % 0x100) as u8,
    ]
}

/// The bytes in which a sensor writes 32-bit words.
pub open spec fn written(words: Seq<u32>) -> Seq<u8>
    decreases words.len(),
{
    if words.len() == 0 {
        seq![]
    } else {
        written(words.drop_last()) + word_bytes(words.last() as int)
    }
}

proof fn lemma_written_words(words: Seq<u32>)
    ensures
        written(words).len() == 4 * words.len(),
        forall|i: int| 0 <= i < words.len() ==> word_at(written(words), i) == #[trigger] words[i],
    decreases words.len(),
{
    if words.len() > 0 {
        let front = words.drop_last();
        lemma_written_words(front);
        let all = written(words);
        let word = words.last() as int;
        let n = front.len();
        assert forall|i: int| 0 <= i < words.len() implies word_at(all, i) == #[trigger] words[i] by {
            if i < n {
                assert(word_at(all, i) == word_at(written(front), i));
                assert(words[i] == front[i]);
            } else {
                assert(all[4 * i] == word_bytes(word)[0]);
                assert(all[4 * i + 1] == word_bytes(word)[1]);
                assert(all[4 * i + 2] == word_bytes(word)[2]);
                assert(all[4 * i + 3] == word_bytes(word)[3]);
            }
        }
    }
}

/// What a sensor writes is read back: counts as the integers whose two's
/// complement they are, ground motion as the floating-point numbers whose bits
/// they are.
pub proof fn law_written_samples_are_read_back(words: Seq<u32>, unit: Seq<char>)
    ensures
        unit == "counts"@ ==> samples_in(written(words), unit) == Ok::<Seq<Real>, FrameFault>(
            Seq::new(words.len(), |i: int| whole(signed(words[i] as int))),
        ),
        unit != "counts"@ ==> samples_in(written(words), unit) == Ok::<Seq<Real>, FrameFault>(
            Seq::new(words.len(), |i: int| widened(words[i])),
        ),
{
    lemma_written_words(words);
    let bytes = written(words);
    let read = Seq::new((bytes.len() / 4) as nat, |i: int| sample_at(bytes, unit, i));
    assert forall|i: int| 0 <= i < words.len() implies word_at(bytes, i) == words[i] by {}
    if unit == "counts"@ {
        assert(read =~= Seq::new(words.len(), |i: int| whole(signed(words[i] as int))));
    } else {
        assert(read =~= Seq::new(words.len(), |i: int| widened(words[i])));
    }
}

/// Four bytes are one count, the lowest first, and the count is the one of 32
/// bits that they agree with modulo two to the power of 32: so every count, of
/// either sign, is read back from its two's complement.
pub proof fn law_counts_are_read_from_their_twos_complement(bytes: Seq<u8>, counts: Seq<i32>)
    requires
        bytes.len() == 4 * counts.len(),
        forall|i: int|
            0 <= i < counts.len() ==> (bytes[4 * i] + 256 * bytes[4 * i + 1] + 65536 * bytes[4 * i
                + 2] + 16777216 * bytes[4 * i + 3] - #[trigger] counts[i]) % 4294967296 == 0,
    ensures
        samples_in(bytes, "counts"@) matches Ok(samples) && samples.len() == counts.len() && (
        forall|i: int|
            0 <= i < counts.len() ==> #[trigger] samples[i] == whole(counts[i] as int)),
{
    let samples = samples_in(bytes, "counts"@)->Ok_0;
    assert forall|i: int| 0 <= i < counts.len() implies #[trigger] samples[i] == whole(
        counts[i] as int,
    ) by {
        let word = word_at(bytes, i);
        assert(0 <= word < 0x1_0000_0000);
        assert((word - counts[i]) % 4294967296 == 0);
        assert(signed(word) == counts[i]);
    }
}

/// In any other unit four bytes are the bits of a 32-bit floating-point number,
/// the lowest first, and the sample is that number.
pub proof fn law_motions_are_read_from_their_bits(
    bytes: Seq<u8>,
    motions: Seq<u32>,
    unit: Seq<char>,
)
    requires
        unit != "counts"@,
        bytes.len() == 4 * motions.len(),
        forall|i: int|
            0 <= i < motions.len() ==> bytes[4 * i] + 256 * bytes[4 * i + 1] + 65536 * bytes[4 * i
                + 2] + 16777216 * bytes[4 * i + 3] == #[trigger] motions[i],
    ensures
        samples_in(bytes, unit) matches Ok(samples) && samples.len() == motions.len() && (forall|
            i: int,
        |
            0 <= i < motions.len() ==> #[trigger] samples[i] == widened(motions[i])),
{
    let samples = samples_in(bytes, unit)->Ok_0;
    assert forall|i: int| 0 <= i < motions.len() implies #[trigger] samples[i] == widened(
        motions[i],
    ) by {
        assert(word_at(bytes, i) == motions[i]);
    }
}

/// Bytes are samples exactly if they come in fours, whatever the unit; else the
/// fault counts them.
pub proof fn law_samples_come_in_fours(bytes: Seq<u8>, unit: Seq<char>)
    ensures
        samples_in(bytes, unit) is Ok <==> bytes.len() % 4 == 0,
        samples_in(bytes, unit) matches Ok(samples) ==> bytes.len() == 4 * samples.len(),
        samples_in(bytes, unit) matches Err(fault) ==> fault == FrameFault::Ragged(bytes.len()),
{
}

/// The bytes of a channel, unpacked where they are compressed.
pub open spec fn channel_bytes(encoded: Seq<char>, compressed: bool) -> Result<
    Seq<u8>,
    FrameFault,
> {
    match base64_bytes(encoded) {
        Err(reason) => Err(FrameFault::Base64(reason)),
        Ok(raw) => if compressed {
            match gunzipped(raw) {
                Err(reason) => Err(FrameFault::Gzip(reason)),
                Ok(bytes) => Ok(bytes),
            }
        } else {
            Ok(raw)
        },
    }
}

/// The samples of a channel.
pub open spec fn channel_samples(encoded: Seq<char>, compressed: bool, unit: Seq<char>) -> Result<
    Seq<Real>,
    FrameFault,
> {
    match channel_bytes(encoded, compressed) {
        Err(fault) => Err(fault),
        Ok(bytes) => samples_in(bytes, unit),
    }
}

/// The samples of a channel are those in the bytes that its text encodes, or in
/// what these hold where the frame is compressed; bytes of a frame that is not
/// compressed are taken as they are.
pub proof fn law_a_channel_is_unpacked_as_the_frame_says(encoded: Seq<char>, unit: Seq<char>)
    ensures
        base64_bytes(encoded) matches Ok(raw) ==> channel_samples(encoded, false, unit)
            == samples_in(raw, unit),
        base64_bytes(encoded) matches Ok(raw) ==> (gunzipped(raw) matches Ok(held)
            ==> channel_samples(encoded, true, unit) == samples_in(held, unit)),
        base64_bytes(encoded) matches Ok(raw) ==> (gunzipped(raw) matches Err(reason)
            ==> channel_samples(encoded, true, unit) == Err::<Seq<Real>, FrameFault>(
            FrameFault::Gzip(reason),
        )),
        base64_bytes(encoded) matches Err(reason) ==> channel_samples(encoded, false, unit) == Err::<
            Seq<Real>,
            FrameFault,
        >(FrameFault::Base64(reason)) && channel_samples(encoded, true, unit) == Err::<
            Seq<Real>,
            FrameFault,
        >(FrameFault::Base64(reason)),
{
}

/// Turn one channel's payload into samples.
pub fn decode_channel(encoded: &str, compressed: bool, unit: &str) -> (r: Result<
    Vec<Real>,
    FrameError,
>)
    ensures
        match channel_samples(encoded@, compressed, unit@) {
            Ok(samples) => r matches Ok(list) && list@ == samples,
            Err(fault) => r matches Err(e) && e@ == fault,
        },
{
    let raw = match decode_base64(encoded) {
        Ok(raw) => raw,
        Err(reason) => return Err(FrameError::Base64(reason)),
    };
    if !compressed {
        return read_samples(&raw, unit);
    }
    match gunzip(raw.as_slice()) {
        Ok(bytes) => read_samples(&bytes, unit),
        Err(reason) => Err(FrameError::Gzip(reason)),
    }
}

/// A frame of waveform, one entry per channel.
#[derive(Clone, Debug, PartialEq, Eq)]
pub struct Traces {
    /// Base64 per channel, gzipped when `compressed`, in the order of the
    /// channels, each of which stands once.
    pub data: Vec<(String, String)>,
    /// Seconds between samples.
    pub delta_t: Real,
    /// When the *last* sample of the frame was recorded; the start is worked
    /// back from the sample count.
    pub endtime: String,
    pub data_unit: Option<String>,
    pub compressed: bool,
}

/// The names of the channels of a frame as it arrived.
pub open spec fn names_in(data: Seq<(String, String)>) -> Seq<Seq<char>> {
    data.map_values(|entry: (String, String)| entry.0@)
}

/// The names of channels.
pub open spec fn names_of(channels: Seq<(Seq<char>, Seq<Real>)>) -> Seq<Seq<char>> {
    channels.map_values(|channel: (Seq<char>, Seq<Real>)| channel.0)
}

impl Traces {
    /// The channels are in order and each stands once.
    pub open spec fn well_formed(self) -> bool {
        strictly_ordered(names_in(self.data@))
    }
}

/// The unit of the samples, which are counts unless the frame says otherwise.
pub open spec fn unit_of(traces: Traces) -> Seq<char> {
    match traces.data_unit {
        Some(unit) => unit@,
        None => "counts"@,
    }
}

/// The channels of a frame that hold samples, or what is wrong with the first
/// channel that cannot be read.
pub open spec fn channels_of(
    data: Seq<(String, String)>,
    compressed: bool,
    unit: Seq<char>,
) -> Result<Seq<(Seq<char>, Seq<Real>)>, FrameFault>
    decreases data.len(),
{
    if data.len() == 0 {
        Ok(seq![])
    } else {
        match channels_of(data.drop_last(), compressed, unit) {
            Err(fault) => Err(fault),
            Ok(before) => match channel_samples(data.last().1@, compressed, unit) {
                Err(fault) => Err(fault),
                Ok(samples) => if samples.len() == 0 {
                    Ok(before)
                } else {
                    Ok(before.push((data.last().0@, samples)))
                },
            },
        }
    }
}

/// What a frame of waveform holds.
#[derive(Clone, Debug, PartialEq, Eq)]
pub struct Frame {
    /// When the last sample of every channel was recorded.
    pub endtime: Timestamp,
    /// The channels that hold samples, in order.
    pub channels: Vec<(String, Vec<Real>)>,
}

/// Channels by the texts and numbers they hold.
pub open spec fn channels_view(channels: Seq<(String, Vec<Real>)>) -> Seq<
    (Seq<char>, Seq<Real>),
> {
    channels.map_values(|c: (String, Vec<Real>)| (c.0@, c.1@))
}

impl Frame {
    /// The channels are in order and each stands once.
    pub open spec fn well_formed(self) -> bool {
        strictly_ordered(names_of(channels_view(self.channels@)))
    }
}

/// What a frame holds, or what is wrong with it.
pub open spec fn frame_of(traces: Traces) -> Result<
    (Timestamp, Seq<(Seq<char>, Seq<Real>)>),
    FrameFault,
> {
    if !traces.delta_t.is_nan() && traces.delta_t.rank() <= 0 {
        Err(FrameFault::Spacing)
    } else {
        match endtime_of(traces.endtime@) {
            Err(fault) => Err(fault),
            Ok(endtime) => match channels_of(traces.data@, traces.compressed, unit_of(traces)) {
                Err(fault) => Err(fault),
                Ok(channels) => Ok((endtime, channels)),
            },
        }
    }
}

/// A frame without a unit holds counts; the names and the samples of its
/// channels stand in the places of the channels.
pub proof fn law_a_frame_is_its_channels(
    traces: Traces,
    data: Seq<(String, String)>,
    channels: Seq<(String, Vec<Real>)>,
)
    ensures
        traces.data_unit is None ==> unit_of(traces) == "counts"@,
        traces.data_unit matches Some(unit) ==> unit_of(traces) == unit@,
        traces.well_formed() <==> forall|i: int, j: int|
            0 <= i < j < traces.data@.len() ==> text_le(
                (#[trigger] traces.data@[i]).0@,
                (#[trigger] traces.data@[j]).0@,
            ) && traces.data@[i].0@ != traces.data@[j].0@,
        names_in(data).len() == data.len(),
        forall|i: int| 0 <= i < data.len() ==> #[trigger] names_in(data)[i] == data[i].0@,
        channels_view(channels).len() == channels.len(),
        forall|i: int|
            0 <= i < channels.len() ==> #[trigger] channels_view(channels)[i] == (
                channels[i].0@,
                channels[i].1@,
            ),
        names_of(channels_view(channels)).len() == channels.len(),
        forall|i: int|
            0 <= i < channels.len() ==> #[trigger] names_of(channels_view(channels))[i]
                == channels[i].0@,
{
    let names = names_in(traces.data@);
    assert forall|i: int| 0 <= i < names.len() implies names[i] == (
    #[trigger] traces.data@[i]).0@ by {}
    if traces.well_formed() {
        assert forall|i: int, j: int| 0 <= i < j < traces.data@.len() implies text_le(
            (#[trigger] traces.data@[i]).0@,
            (#[trigger] traces.data@[j]).0@,
        ) && traces.data@[i].0@ != traces.data@[j].0@ by {
            assert(text_le(names[i], names[j]) && names[i] != names[j]);
        }
    }
}

/// A frame that was unpacked has its channels in order, and each stands once.
pub proof fn law_the_channels_of_a_frame_ascend(frame: Frame, i: int, j: int)
    requires
        frame.well_formed(),
        0 <= i < j < frame.channels@.len(),
    ensures
        text_le(frame.channels@[i].0@, frame.channels@[j].0@),
        frame.channels@[i].0@ != frame.channels@[j].0@,
{
    let names = names_of(channels_view(frame.channels@));
    assert(names[i] == frame.channels@[i].0@ && names[j] == frame.channels@[j].0@);
}

/// A frame is refused for its spacing exactly if that is a number and zero or
/// below, then for its end time, then for its channels; one that is not refused
/// has the end time and the channels that were read.
pub proof fn law_a_frame_is_read_or_refused(traces: Traces)
    ensures
        frame_of(traces) == Err::<(Timestamp, Seq<(Seq<char>, Seq<Real>)>), FrameFault>(
            FrameFault::Spacing,
        ) <==> traces.delta_t.bits == 0 || 0x8000_0000_0000_0000 <= traces.delta_t.bits
            <= 0xfff0_0000_0000_0000,
        traces.delta_t.is_finite() ==> (frame_of(traces) == Err::<
            (Timestamp, Seq<(Seq<char>, Seq<Real>)>),
            FrameFault,
        >(FrameFault::Spacing) <==> traces.delta_t.units() <= 0),
        !(frame_of(traces) matches Err(FrameFault::Spacing)) ==> match endtime_of(
            traces.endtime@,
        ) {
            Err(fault) => frame_of(traces) == Err::<
                (Timestamp, Seq<(Seq<char>, Seq<Real>)>),
                FrameFault,
            >(fault),
            Ok(endtime) => match channels_of(traces.data@, traces.compressed, unit_of(traces)) {
                Err(fault) => frame_of(traces) == Err::<
                    (Timestamp, Seq<(Seq<char>, Seq<Real>)>),
                    FrameFault,
                >(fault),
                Ok(channels) => frame_of(traces) == Ok::<
                    (Timestamp, Seq<(Seq<char>, Seq<Real>)>),
                    FrameFault,
                >((endtime, channels)),
            },
        },
{
    if channels_of(traces.data@, traces.compressed, unit_of(traces)) is Err {
        lemma_channel_faults(traces.data@, traces.compressed, unit_of(traces));
    }
    if traces.delta_t.is_finite() {
        law_rank_is_the_order_of_numbers(traces.delta_t, Real { bits: 0 });
        law_small_numbers_are_counted_by_their_bits(Real { bits: 0 });
    }
}

/// The channels of a frame are never at fault for its spacing.
proof fn lemma_channel_faults(data: Seq<(String, String)>, compressed: bool, unit: Seq<char>)
    ensures
        channels_of(data, compressed, unit) matches Err(fault) ==> !(fault is Spacing),
    decreases data.len(),
{
    if data.len() > 0 {
        lemma_channel_faults(data.drop_last(), compressed, unit);
    }
}

/// Channels are read one after the other: those of two lists are the ones of
/// the first and then those of the second, and the first that cannot be read
/// spoils them all. One channel alone is left out if it holds no samples.
pub proof fn law_channels_are_read_in_turn(
    front: Seq<(String, String)>,
    back: Seq<(String, String)>,
    channel: (String, String),
    compressed: bool,
    unit: Seq<char>,
)
    ensures
        match (channels_of(front, compressed, unit), channels_of(back, compressed, unit)) {
            (Ok(a), Ok(b)) => channels_of(front + back, compressed, unit) == Ok::<
                Seq<(Seq<char>, Seq<Real>)>,
                FrameFault,
            >(a + b),
            (Err(fault), _) => channels_of(front + back, compressed, unit) == Err::<
                Seq<(Seq<char>, Seq<Real>)>,
                FrameFault,
            >(fault),
            (Ok(_), Err(fault)) => channels_of(front + back, compressed, unit) == Err::<
                Seq<(Seq<char>, Seq<Real>)>,
                FrameFault,
            >(fault),
        },
        channels_of(seq![channel], compressed, unit) == (match channel_samples(
            channel.1@,
            compressed,
            unit,
        ) {
            Err(fault) => Err::<Seq<(Seq<char>, Seq<Real>)>, FrameFault>(fault),
            Ok(samples) => if samples.len() == 0 {
                Ok(seq![])
            } else {
                Ok(seq![(channel.0@, samples)])
            },
        }),
        channels_of(seq![], compressed, unit) == Ok::<Seq<(Seq<char>, Seq<Real>)>, FrameFault>(
            seq![],
        ),
    decreases back.len(),
{
    let all = front + back;
    assert(seq![channel].drop_last() =~= seq![]);
    assert(channels_of(seq![], compressed, unit) == Ok::<
        Seq<(Seq<char>, Seq<Real>)>,
        FrameFault,
    >(seq![]));
    if let Ok(samples) = channel_samples(channel.1@, compressed, unit) {
        assert(Seq::<(Seq<char>, Seq<Real>)>::empty().push((channel.0@, samples)) =~= seq![
            (channel.0@, samples),
        ]);
    }
    if back.len() == 0 {
        assert(all =~= front);
        assert(back =~= seq![]);
        if let Ok(a) = channels_of(front, compressed, unit) {
            assert(a + seq![] =~= a);
        }
    } else {
        assert(all.drop_last() =~= front + back.drop_last());
        law_channels_are_read_in_turn(front, back.drop_last(), channel, compressed, unit);
        if let (Ok(a), Ok(b)) = (
            channels_of(front, compressed, unit),
            channels_of(back, compressed, unit),
        ) {
            let c = channels_of(back.drop_last(), compressed, unit)->Ok_0;
            if b.len() > c.len() {
                assert((a + c).push(b.last()) =~= a + b);
            }
        }
    }
}

proof fn lemma_channels_grow(data: Seq<(String, String)>, compressed: bool, unit: Seq<char>, i: int)
    requires
        0 <= i <= data.len(),
        channels_of(data.take(i), compressed, unit) is Err,
    ensures
        channels_of(data, compressed, unit) == channels_of(data.take(i), compressed, unit),
    decreases data.len() - i,
{
    if i == data.len() {
        assert(data.take(i) =~= data);
    } else {
        assert(data.take(i + 1).drop_last() =~= data.take(i));
        lemma_channels_grow(data, compressed, unit, i + 1);
    }
}

/// Every channel that is read is one that arrived.
proof fn lemma_channels_arrived(
    data: Seq<(String, String)>,
    compressed: bool,
    unit: Seq<char>,
    k: int,
)
    requires
        channels_of(data, compressed, unit) matches Ok(channels) && 0 <= k < channels.len(),
    ensures
        names_in(data).contains(channels_of(data, compressed, unit)->Ok_0[k].0),
    decreases data.len(),
{
    let front = data.drop_last();
    let before = channels_of(front, compressed, unit)->Ok_0;
    let name = channels_of(data, compressed, unit)->Ok_0[k].0;
    if k < before.len() {
        lemma_channels_arrived(front, compressed, unit, k);
        let j = choose|j: int| 0 <= j < names_in(front).len() && names_in(front)[j] == name;
        assert(names_in(data)[j] == name);
    } else {
        assert(names_in(data)[data.len() - 1] == name);
    }
}

/// Where the channels of a frame arrive in order and each once, those that are
/// read out of it are in order and stand once.
pub proof fn law_channels_stay_in_order(
    data: Seq<(String, String)>,
    compressed: bool,
    unit: Seq<char>,
)
    requires
        strictly_ordered(names_in(data)),
    ensures
        channels_of(data, compressed, unit) matches Ok(channels) ==> strictly_ordered(
            names_of(channels),
        ),
    decreases data.len(),
{
    if data.len() > 0 && channels_of(data, compressed, unit) is Ok {
        let front = data.drop_last();
        assert(names_in(front) =~= names_in(data).drop_last());
        law_channels_stay_in_order(front, compressed, unit);
        let before = channels_of(front, compressed, unit)->Ok_0;
        let names = names_of(channels_of(data, compressed, unit)->Ok_0);
        assert forall|i: int, j: int| 0 <= i < j < names.len() implies text_le(
            #[trigger] names[i],
            #[trigger] names[j],
        ) && names[i] != names[j] by {
            assert(names[i] == names_of(before)[i]);
            if j < before.len() {
                assert(names[j] == names_of(before)[j]);
            } else {
                lemma_channels_arrived(front, compressed, unit, i);
                let k = choose|k: int|
                    0 <= k < names_in(front).len() && names_in(front)[k] == names[i];
                assert(names_in(data)[k] == names[i]);
                assert(names_in(data)[data.len() - 1] == names[j]);
            }
        }
    }
}

/// Unpack a frame. A channel without samples is left out.
pub fn decode_traces(traces: &Traces) -> (r: Result<Frame, FrameError>)
    ensures
        traces.well_formed() ==> (r matches Ok(frame) ==> frame.well_formed()),
        match frame_of(*traces) {
            Ok((endtime, channels)) => r matches Ok(frame) && frame.endtime == endtime
                && channels_view(frame.channels@) == channels,
            Err(fault) => r matches Err(e) && e@ == fault,
        },
{
    if traces.delta_t.at_most_zero() {
        return Err(FrameError::Spacing);
    }
    let endtime = match parse_endtime(traces.endtime.as_str()) {
        Ok(endtime) => endtime,
        Err(e) => return Err(e),
    };
    let unit = match &traces.data_unit {
        Some(unit) => unit.as_str(),
        None => "counts",
    };
    let ghost data = traces.data@;
    let mut channels: Vec<(String, Vec<Real>)> = Vec::new();
    let mut i: usize = 0;
    assert(data.take(0) =~= seq![]);
    assert(channels_view(channels@) =~= seq![]);
    while i < traces.data.len()
        invariant
            i <= data.len(),
            data == traces.data@,
            unit@ == unit_of(*traces),
            !(!traces.delta_t.is_nan() && traces.delta_t.rank() <= 0),
            endtime_of(traces.endtime@) == Ok::<Timestamp, FrameFault>(endtime),
            channels_of(data.take(i as int), traces.compressed, unit@) == Ok::<
                Seq<(Seq<char>, Seq<Real>)>,
                FrameFault,
            >(channels_view(channels@)),
        decreases data.len() - i,
    {
        let ghost before = channels@;
        let channel = &traces.data[i];
        assert(data.take(i + 1).drop_last() =~= data.take(i as int));
        match decode_channel(channel.1.as_str(), traces.compressed, unit) {
            Err(e) => {
                proof {
                    lemma_channels_grow(data, traces.compressed, unit@, i + 1);
                }
                return Err(e);
            },
            Ok(samples) => {
                if samples.len() > 0 {
                    channels.push((channel.0.clone(), samples));
                    assert(channels_view(channels@) =~= channels_view(before).push(
                        (channel.0@, samples@),
                    ));
                }
            },
        }
        i += 1;
    }
    assert(data.take(i as int) =~= data);
    proof {
        if traces.well_formed() {
            law_channels_stay_in_order(data, traces.compressed, unit@);
        }
    }
    Ok(Frame { endtime, channels })
}

/// The key of a channel: the backend names the sensor, not a full SEED stream,
/// so the panels are keyed by sensor and channel.
pub open spec fn panel_key(uid: Seq<char>, channel: Seq<char>) -> Seq<char> {
    uid + "."@ + channel
}

/// Every channel of a sensor has a panel of its own.
pub proof fn law_every_channel_has_its_own_panel(uid: Seq<char>, a: Seq<char>, b: Seq<char>)
    ensures
        panel_key(uid, a) == panel_key(uid, b) <==> a == b,
{
    let lead = uid + "."@;
    if panel_key(uid, a) == panel_key(uid, b) {
        assert(panel_key(uid, a).skip(lead.len() as int) =~= a);
        assert(panel_key(uid, b).skip(lead.len() as int) =~= b);
    }
}

/// The chunk is what a channel of a frame carries. The frame is stamped at its
/// last sample, so the first one sits the given span earlier.
pub open spec fn frame_chunk(
    chunk: Chunk,
    uid: Seq<char>,
    endtime: Timestamp,
    channel: (String, Vec<Real>),
    rate: Real,
    span: i64,
) -> bool {
    &&& chunk.stream_id@ == panel_key(uid, channel.0@)
    &&& chunk.channel@ == channel.0@
    &&& time_before(endtime, span) == Some(chunk.start)
    &&& endtime.ordinary() ==> chunk.start.ordinary() && chunk.start.total() + span
        == endtime.total()
    &&& chunk.sample_rate == rate
    &&& chunk.samples@ == channel.1@
}

/// A chunk is the samples of its channel at the given rate, under the sensor and
/// the channel; its last sample, the given span after its first, is recorded
/// when the frame ends.
pub proof fn law_a_chunk_ends_with_its_frame(
    chunk: Chunk,
    uid: Seq<char>,
    endtime: Timestamp,
    channel: (String, Vec<Real>),
    rate: Real,
    span: i64,
)
    requires
        frame_chunk(chunk, uid, endtime, channel, rate, span),
    ensures
        chunk.stream_id@ == join_texts(seq![uid, channel.0@], "."@),
        chunk.channel@ == channel.0@,
        chunk.sample_rate == rate,
        chunk.samples@ == channel.1@,
        time_before(endtime, span) == Some(chunk.start),
        endtime.ordinary() ==> chunk.start.nanos < 1_000_000_000 && chunk.start.seconds
            * 1_000_000_000 + chunk.start.nanos + span == endtime.seconds * 1_000_000_000
            + endtime.nanos,
{
    let parts = seq![uid, channel.0@];
    assert(parts.drop_last() =~= seq![uid]);
    assert(join_texts(parts.drop_last(), "."@) == uid);
}

/// A channel that ends at a time would begin outside the calendar.
pub open spec fn begins_off_the_calendar(endtime: Timestamp, span: i64) -> bool {
    &&& time_before(endtime, span) is None
    &&& endtime.ordinary() ==> !(CALENDAR_FIRST * NANOS <= endtime.total() - span < (CALENDAR_LAST
        + 1) * NANOS)
}

/// A channel begins off the calendar only if the time its span before the end is
/// none, which for an end in no leap second means that it lies before the first
/// or past the last second there is.
pub proof fn law_what_lies_off_the_calendar(endtime: Timestamp, span: i64)
    ensures
        begins_off_the_calendar(endtime, span) ==> time_before(endtime, span) is None,
        begins_off_the_calendar(endtime, span) && endtime.ordinary() ==> endtime.seconds
            * 1_000_000_000 + endtime.nanos - span < -8_334_601_228_800 * 1_000_000_000
            || endtime.seconds * 1_000_000_000 + endtime.nanos - span >= 8_210_266_876_800
            * 1_000_000_000,
{
}

fn copy_samples(samples: &Vec<Real>) -> (r: Vec<Real>)
    ensures
        r@ == samples@,
{
    let copy = samples.clone();
    assert(copy@ =~= samples@);
    copy
}

/// Split a frame into one chunk per channel, given the sample rate and for each
/// channel the nanoseconds from its first sample to its last. There are none
/// where a channel would begin outside the calendar.
pub fn chunks_from_traces(uid: &str, frame: &Frame, rate: Real, spans: &Vec<i64>) -> (r: Option<
    Vec<Chunk>,
>)
    requires
        spans@.len() == frame.channels@.len(),
    ensures
        match r {
            Some(chunks) => {
                &&& chunks@.len() == frame.channels@.len()
                &&& forall|i: int|
                    0 <= i < chunks@.len() ==> frame_chunk(
                        #[trigger] chunks@[i],
                        uid@,
                        frame.endtime,
                        frame.channels@[i],
                        rate,
                        spans@[i],
                    )
                &&& frame.well_formed() ==> forall|i: int, j: int|
                    0 <= i < j < chunks@.len() ==> (#[trigger] chunks@[i]).stream_id@ != (
                    #[trigger] chunks@[j]).stream_id@
            },
            None => exists|i: int|
                0 <= i < spans@.len() && begins_off_the_calendar(
                    frame.endtime,
                    #[trigger] spans@[i],
                ),
        },
        frame.endtime.roomy() ==> r is Some,
{
    let mut chunks: Vec<Chunk> = Vec::new();
    let mut i: usize = 0;
    while i < frame.channels.len()
        invariant
            i <= frame.channels@.len(),
            spans@.len() == frame.channels@.len(),
            chunks@.len() == i,
            forall|j: int|
                0 <= j < i ==> frame_chunk(
                    #[trigger] chunks@[j],
                    uid@,
                    frame.endtime,
                    frame.channels@[j],
                    rate,
                    spans@[j],
                ),
        decreases frame.channels@.len() - i,
    {
        let channel = &frame.channels[i];
        let start = match step_back(frame.endtime, spans[i]) {
            Some(start) => start,
            None => return None,
        };
        let mut stream_id = uid.to_string();
        stream_id.append(".");
        stream_id.append(channel.0.as_str());
        chunks.push(
            Chunk {
                stream_id,
                channel: channel.0.clone(),
                start,
                sample_rate: rate,
                samples: copy_samples(&channel.1),
            },
        );
        i += 1;
    }
    proof {
        if frame.well_formed() {
            let names = names_of(channels_view(frame.channels@));
            assert forall|a: int, b: int| 0 <= a < b < chunks@.len() implies (
            #[trigger] chunks@[a]).stream_id@ != (#[trigger] chunks@[b]).stream_id@ by {
                assert(names[a] == frame.channels@[a].0@);
                assert(names[b] == frame.channels@[b].0@);
                law_every_channel_has_its_own_panel(uid@, names[a], names[b]);
            }
        }
    }
    Some(chunks)
}

/// A data product of a sensor.
#[derive(Clone, Debug, PartialEq, Eq)]
pub struct DataProduct {
    pub name: String,
    pub traces: Option<Traces>,
}

/// A message the backend sends down the socket.
///
/// Only the data frames matter here; the rest are read far enough to report a
/// refusal and otherwise ignored.
#[derive(Clone, Debug, PartialEq, Eq)]
pub struct ServerMessage {
    /// What kind of message it is.
    pub kind: String,
    pub status: Option<String>,
    pub message: Option<String>,
    pub sensor_uid: Option<String>,
    pub data: Option<DataProduct>,
}

/// What comes out of a message.
#[derive(Clone, Debug, PartialEq, Eq)]
pub enum Incoming {
    /// Nothing.
    Ignored,
    /// The connection is over, for the given reason.
    Refused(String),
    /// A frame of waveform of a sensor.
    Waveform { uid: String, traces: Traces },
}

/// The backend reports a failure.
pub open spec fn is_refusal(message: ServerMessage) -> bool {
    message.kind@ == "status"@ && (message.status matches Some(status) && status@ == "ERROR"@)
}

/// The frame of waveform that a message carries.
pub open spec fn waveform_in(message: ServerMessage) -> Option<Traces> {
    if message.kind@ == "status"@ {
        None
    } else {
        match message.data {
            Some(product) => if product.name@ == WAVEFORM_PRODUCT@ {
                product.traces
            } else {
                None
            },
            None => None,
        }
    }
}

/// What to say of a refusal.
pub open spec fn refusal_text(message: ServerMessage) -> Seq<char> {
    "the backend refused the subscription: "@ + match message.message {
        Some(reason) => reason@,
        None => "no reason given"@,
    }
}

/// The sensor that a message is about, on a connection for the given one.
pub open spec fn sensor_named(message: ServerMessage, uid: Seq<char>) -> Seq<char> {
    match message.sensor_uid {
        Some(sensor_uid) => sensor_uid@,
        None => uid,
    }
}

/// Only a status that tells of an error is a refusal, and it gives the reason
/// that came with it; only a message that is no status and carries the waveform
/// product with a frame holds one; and a message is about the sensor it names,
/// or else the one the connection is for.
pub proof fn law_what_a_message_holds(message: ServerMessage, uid: Seq<char>, reason: String)
    ensures
        is_refusal(message) <==> message.kind@ == "status"@ && message.status is Some
            && message.status->0@ == "ERROR"@,
        waveform_in(message) is Some <==> message.kind@ != "status"@ && message.data is Some
            && message.data->0.name@ == "WaveformData"@ && message.data->0.traces is Some,
        waveform_in(message) matches Some(traces) ==> message.data->0.traces == Some(traces),
        message.message == Some(reason) ==> refusal_text(message)
            == "the backend refused the subscription: "@ + reason@,
        message.message is None ==> refusal_text(message)
            == "the backend refused the subscription: no reason given"@,
        message.sensor_uid is Some ==> sensor_named(message, uid) == message.sensor_uid->0@,
        message.sensor_uid is None ==> sensor_named(message, uid) == uid,
{
    reveal_strlit("the backend refused the subscription: ");
    reveal_strlit("no reason given");
    reveal_strlit("the backend refused the subscription: no reason given");
    assert("the backend refused the subscription: "@ + "no reason given"@
        =~= "the backend refused the subscription: no reason given"@);
}

/// Read a message of a connection that was opened for a sensor. A frame that
/// names no sensor is taken for that one's.
pub fn read_message(uid: &str, message: ServerMessage) -> (r: Incoming)
    ensures
        is_refusal(message) ==> (r matches Incoming::Refused(text) && text@ == refusal_text(
            message,
        )),
        !is_refusal(message) ==> match waveform_in(message) {
            Some(traces) => r matches Incoming::Waveform { uid: named, traces: read } && read
                == traces && named@ == sensor_named(message, uid@),
            None => r is Ignored,
        },
{
    if same_text(message.kind.as_str(), "status") {
        let failed = match &message.status {
            Some(status) => same_text(status.as_str(), "ERROR"),
            None => false,
        };
        if !failed {
            return Incoming::Ignored;
        }
        let mut text = "the backend refused the subscription: ".to_string();
        match &message.message {
            Some(reason) => text.append(reason.as_str()),
            None => text.append("no reason given"),
        }
        return Incoming::Refused(text);
    }
    let product = match message.data {
        Some(product) => product,
        None => return Incoming::Ignored,
    };
    if !same_text(product.name.as_str(), WAVEFORM_PRODUCT) {
        return Incoming::Ignored;
    }
    match product.traces {
        Some(traces) => {
            let named = match message.sensor_uid {
                Some(sensor_uid) => sensor_uid,
                None => uid.to_string(),
            };
            Incoming::Waveform { uid: named, traces }
        },
        None => Incoming::Ignored,
    }
}

/// What to tell the view about a frame. One bad frame does not take the view
/// down. The sample spacing of the frame is given in text.
pub fn frame_updates(outcome: Result<Vec<Chunk>, FrameError>, spacing: &str) -> (updates: Vec<
    Update,
>)
    ensures
        match outcome {
            Err(e) => updates@.len() == 1 && (updates@[0] matches Update::Notice(text) && text@
                == "skipped a frame: "@ + fault_text(e@, spacing@)),
            Ok(chunks) => updates@ == chunks@.map_values(|chunk: Chunk| Update::Data(chunk)),
        },
{
    let mut updates: Vec<Update> = Vec::new();
    match outcome {
        Err(e) => {
            let mut text = "skipped a frame: ".to_string();
            let fault = e.to_text(spacing);
            text.append(fault.as_str());
            updates.push(Update::Notice(text));
        },
        Ok(chunks) => {
            for chunk in it: chunks
                invariant
                    it.seq() == chunks@,
                    updates@ == chunks@.take(it.index()).map_values(
                        |chunk: Chunk| Update::Data(chunk),
                    ),
            {
                updates.push(Update::Data(chunk));
                assert(updates@ =~= chunks@.take(it.index() + 1).map_values(
                    |chunk: Chunk| Update::Data(chunk),
                ));
            }
            assert(chunks@.take(chunks@.len() as int) =~= chunks@);
        },
    }
    updates
}

/// What to tell the view about a text that holds no message.
pub fn unreadable_frame(reason: &str) -> (r: Update)
    ensures
        r matches Update::Notice(text) && text@ == "unreadable frame: "@ + reason@,
{
    let mut text = "unreadable frame: ".to_string();
    text.append(reason);
    Update::Notice(text)
}

/// The address of the websocket for an account.
pub fn target(url: &str, token: &str) -> (r: String)
    ensures
        r@ == url@ + "?token="@ + token@,
{
    let mut r = url.to_string();
    r.append("?token=");
    r.append(token);
    r
}

/// The websocket the backend serves.
pub fn default_url() -> (url: String)
    ensures
        url@ == WS_PATH@,
{
    WS_PATH.to_string()
}

/// How JSON spells a text.
pub uninterp spec fn json_spelling(text: Seq<char>) -> Seq<char>;

/// A text in double quotes.
pub open spec fn in_quotes(text: Seq<char>) -> Seq<char> {
    "\""@ + text + "\""@
}

/// `serde_json::Value::to_string` of a text: the JSON string that spells it. The
/// spelling depends on the text alone and is called by a name. Letters and
/// digits need no escape, so a text of them stands between two double quotes as
/// it is.
#[verifier::external_body]
fn json_string(text: &str) -> (r: String)
    ensures
        r@ == json_spelling(text@),
        all_alphanumeric(text@) ==> r@ == in_quotes(text@),
{
    serde_json::Value::from(text).to_string()
}

/// The JSON object that asks for the waveforms of a sensor, with the UID
/// already spelled as a JSON string.
pub open spec fn subscription_text(uid: Seq<char>) -> Seq<char> {
    "{\"data_product_name\":\"WaveformData\",\"method\":\"subscribe\",\"sensor_uids\":["@ + uid
        + "],\"topic\":\"data_product\",\"type\":\"request\"}"@
}

/// The request holds the UID once, between words that are the same for every
/// sensor; in quotes a text stands as it is.
pub proof fn law_a_subscription_names_the_sensor(uid: Seq<char>)
    ensures
        exists|front: Seq<char>, back: Seq<char>|
            #![trigger front + back]
            forall|spelled: Seq<char>| #[trigger]
                subscription_text(spelled) == front + spelled + back,
        in_quotes(uid).len() == uid.len() + 2,
        in_quotes(uid).subrange(1, 1 + uid.len() as int) == uid,
        in_quotes(uid)[0] == '"' && in_quotes(uid).last() == '"',
{
    reveal_strlit("\"");
    let front =
        "{\"data_product_name\":\"WaveformData\",\"method\":\"subscribe\",\"sensor_uids\":["@;
    let back = "],\"topic\":\"data_product\",\"type\":\"request\"}"@;
    let words = front + back;
    assert(in_quotes(uid).subrange(1, 1 + uid.len() as int) =~= uid);
}

/// The request for a sensor whose UID is already spelled as a JSON string.
pub fn subscription_of(uid: &str) -> (text: String)
    ensures
        text@ == subscription_text(uid@),
{
    let mut text =
        "{\"data_product_name\":\"WaveformData\",\"method\":\"subscribe\",\"sensor_uids\":[".to_string();
    text.append(uid);
    text.append("],\"topic\":\"data_product\",\"type\":\"request\"}");
    text
}

/// The request for the waveforms of a sensor.
pub fn subscription(uid: &str) -> (text: String)
    ensures
        text@ == subscription_text(json_spelling(uid@)),
        all_alphanumeric(uid@) ==> text@ == subscription_text(in_quotes(uid@)),
{
    let spelled = json_string(uid);
    subscription_of(spelled.as_str())
}

/// What to say of a websocket that did not open. The backend turns any rejected
/// token into a plain 403, so that is the one failure worth explaining rather
/// than repeating.
pub open spec fn opening_fault(reason: Seq<char>) -> Seq<char> {
    if contains_text(reason, "403"@) {
        "the backend refused the websocket (403); the access token was not accepted, so check SEISMIQ_USERNAME and SEISMIQ_PASSWORD"@
    } else {
        "could not open the websocket to the backend: "@ + reason
    }
}

/// A rejected token is explained wherever the status that means it stands in the
/// reason, and always alike; any other reason is given whole.
pub proof fn law_a_rejected_token_is_explained(
    front: Seq<char>,
    back: Seq<char>,
    reason: Seq<char>,
    other: Seq<char>,
)
    ensures
        contains_text(opening_fault(front + "403"@ + back), "SEISMIQ_PASSWORD"@),
        contains_text(reason, "403"@) && contains_text(other, "403"@) ==> opening_fault(reason)
            == opening_fault(other),
        !contains_text(reason, "403"@) ==> opening_fault(reason)
            == "could not open the websocket to the backend: "@ + reason,
{
    law_a_needle_stands_between_what_surrounds_it(front, "403"@, back);
    reveal_strlit("SEISMIQ_PASSWORD");
    reveal_strlit(
        "the backend refused the websocket (403); the access token was not accepted, so check SEISMIQ_USERNAME and SEISMIQ_PASSWORD",
    );
    let text =
        "the backend refused the websocket (403); the access token was not accepted, so check SEISMIQ_USERNAME and SEISMIQ_PASSWORD"@;
    let at = text.len() - 16;
    assert(text.subrange(at, at + 16) =~= "SEISMIQ_PASSWORD"@);
    assert(stands_at(text, "SEISMIQ_PASSWORD"@, at));
}

fn opening_fault_text(reason: &str) -> (text: String)
    ensures
        text@ == opening_fault(reason@),
{
    if contains(reason, "403") {
        "the backend refused the websocket (403); the access token was not accepted, so check SEISMIQ_USERNAME and SEISMIQ_PASSWORD".to_string()
    } else {
        let mut text = "could not open the websocket to the backend: ".to_string();
        text.append(reason);
        text
    }
}

/// What to say of a sensor that could not be asked to stream.
pub open spec fn asking_fault(uid: Seq<char>, reason: Seq<char>) -> Seq<char> {
    "could not ask "@ + uid + " to start streaming: "@ + reason
}

fn asking_fault_text(uid: &str, reason: &str) -> (text: String)
    ensures
        text@ == asking_fault(uid@, reason@),
{
    let mut text = "could not ask ".to_string();
    text.append(uid);
    text.append(" to start streaming: ");
    text.append(reason);
    text
}

/// How far a connection has come.
#[derive(Clone, Copy, Debug, PartialEq, Eq, Structural)]
pub enum Stage {
    /// The websocket is being opened.
    Opening,
    /// The subscription is being sent.
    Subscribing,
    /// The sensor is being asked to stream for the first time.
    Asking,
    /// Frames arrive, and the sensor is asked again every so often.
    Streaming,
}

/// What happened to a connection.
#[derive(Clone, Debug, PartialEq, Eq)]
pub enum Event {
    /// The websocket is open.
    Opened,
    /// The websocket did not open.
    NotOpened(String),
    /// The subscription was sent.
    Sent,
    /// The subscription could not be sent.
    NotSent(String),
    /// The sensor was asked to stream.
    Asked,
    /// The sensor could not be asked to stream.
    NotAsked(String),
    /// It is time to ask the sensor again.
    Due,
    /// A frame of text came.
    Text(String),
    /// A frame of bytes came.
    Binary(Vec<u8>),
    /// A frame came that the connection answers by itself.
    Control,
    /// A message was read out of a text.
    Message(ServerMessage),
    /// No message could be read out of a text.
    Unreadable(String),
    /// The websocket was closed.
    Closed,
    /// The websocket failed.
    Dropped(String),
}

/// What is to be done next.
#[derive(Clone, Debug, PartialEq, Eq)]
pub enum Action {
    /// Send a text down the socket.
    Send(String),
    /// Ask the sensor to stream.
    Ask,
    /// Tell the view.
    Report(Update),
    /// Read a message out of a text.
    Read(String),
    /// Unpack a frame of waveform of a sensor and tell the view.
    Unpack { uid: String, traces: Traces },
    /// Wait for what comes next.
    Wait,
    /// Give the connection up, for the given reason.
    Fail(String),
}

/// The event can come at the stage.
pub open spec fn awaits(stage: Stage, event: Event) -> bool {
    match event {
        Event::Opened | Event::NotOpened(_) => stage is Opening,
        Event::Sent | Event::NotSent(_) => stage is Subscribing,
        Event::Asked | Event::NotAsked(_) => stage is Asking || stage is Streaming,
        _ => stage is Streaming,
    }
}

/// The stage that follows a stage and an event.
pub open spec fn stage_after(stage: Stage, event: Event) -> Stage {
    match event {
        Event::Opened => Stage::Subscribing,
        Event::Sent => Stage::Asking,
        Event::Asked => Stage::Streaming,
        _ => stage,
    }
}

/// The action is what a connection for a sensor does about an event.
pub open spec fn answers(uid: Seq<char>, stage: Stage, event: Event, action: Action) -> bool {
    match event {
        Event::Opened => action matches Action::Send(text) && text@ == subscription_text(
            json_spelling(uid),
        ) && (all_alphanumeric(uid) ==> text@ == subscription_text(in_quotes(uid))),
        Event::NotOpened(reason) => action matches Action::Fail(text) && text@ == opening_fault(
            reason@,
        ),
        Event::Sent => action is Ask,
        Event::NotSent(reason) => action matches Action::Fail(text) && text@
            == "could not subscribe to the sensor's waveforms: "@ + reason@,
        Event::Asked => if stage is Asking {
            action matches Action::Report(Update::Connected { server, station }) && server@
                == "backend websocket"@ && station@ == uid
        } else {
            action is Wait
        },
        Event::NotAsked(reason) => if stage is Asking {
            action matches Action::Fail(text) && text@ == asking_fault(uid, reason@)
        } else {
            action matches Action::Report(Update::Notice(text)) && text@ == asking_fault(
                uid,
                reason@,
            )
        },
        Event::Due => action is Ask,
        Event::Message(message) => if is_refusal(message) {
            action matches Action::Fail(text) && text@ == refusal_text(message)
        } else {
            match waveform_in(message) {
                Some(traces) => action matches Action::Unpack { uid: named, traces: read } && read
                    == traces && named@ == sensor_named(message, uid),
                None => action is Wait,
            }
        },
        Event::Unreadable(reason) => action matches Action::Report(Update::Notice(text)) && text@
            == "unreadable frame: "@ + reason@,
        Event::Text(text) => action == Action::Read(text),
        Event::Binary(bytes) => action matches Action::Read(text) && text@ == lossy_text(bytes@),
        Event::Control => action is Wait,
        Event::Closed => action matches Action::Fail(text) && text@
            == "the backend closed the websocket"@,
        Event::Dropped(reason) => action matches Action::Fail(text) && text@
            == "the websocket dropped: "@ + reason@,
    }
}

/// One connection for a sensor.
#[derive(Clone, Debug, PartialEq, Eq)]
pub struct Session {
    pub uid: String,
    pub stage: Stage,
}

impl Session {
    /// A connection that is being opened.
    pub fn open(uid: String) -> (r: Self)
        ensures
            r.uid == uid,
            r.stage is Opening,
    {
        Session { uid, stage: Stage::Opening }
    }

    /// Take an event, and say what is to be done about it.
    pub fn step(&mut self, event: Event) -> (action: Action)
        requires
            awaits(old(self).stage, event),
        ensures
            final(self).uid == old(self).uid,
            final(self).stage == stage_after(old(self).stage, event),
            answers(old(self).uid@, old(self).stage, event, action),
            event matches Event::Binary(bytes) ==> reads_plainly(bytes@),
    {
        let uid = self.uid.as_str();
        match event {
            Event::Opened => {
                let text = subscription(uid);
                self.stage = Stage::Subscribing;
                Action::Send(text)
            },
            Event::NotOpened(reason) => Action::Fail(opening_fault_text(reason.as_str())),
            Event::Sent => {
                self.stage = Stage::Asking;
                Action::Ask
            },
            Event::NotSent(reason) => {
                let mut text = "could not subscribe to the sensor's waveforms: ".to_string();
                text.append(reason.as_str());
                Action::Fail(text)
            },
            Event::Asked => {
                if self.stage == Stage::Asking {
                    let station = self.uid.clone();
                    self.stage = Stage::Streaming;
                    Action::Report(
                        Update::Connected { server: "backend websocket".to_string(), station },
                    )
                } else {
                    Action::Wait
                }
            },
            Event::NotAsked(reason) => {
                let text = asking_fault_text(uid, reason.as_str());
                if self.stage == Stage::Asking {
                    Action::Fail(text)
                } else {
                    Action::Report(Update::Notice(text))
                }
            },
            Event::Due => Action::Ask,
            Event::Message(message) => match read_message(uid, message) {
                Incoming::Refused(text) => Action::Fail(text),
                Incoming::Waveform { uid, traces } => Action::Unpack { uid, traces },
                Incoming::Ignored => Action::Wait,
            },
            Event::Unreadable(reason) => Action::Report(unreadable_frame(reason.as_str())),
            Event::Text(text) => Action::Read(text),
            Event::Binary(bytes) => Action::Read(lossy(bytes.as_slice())),
            Event::Control => Action::Wait,
            Event::Closed => Action::Fail("the backend closed the websocket".to_string()),
            Event::Dropped(reason) => {
                let mut text = "the websocket dropped: ".to_string();
                text.append(reason.as_str());
                Action::Fail(text)
            },
        }
    }
}

/// What is asked of a sensor that cannot be asked names the sensor and gives the
/// reason, between words that are the same for every sensor.
pub proof fn law_a_sensor_that_cannot_be_asked_is_named()
    ensures
        exists|front: Seq<char>, middle: Seq<char>|
            #![trigger front + middle]
            forall|uid: Seq<char>, reason: Seq<char>| #[trigger]
                asking_fault(uid, reason) == front + uid + middle + reason,
{
    let words = "could not ask "@ + " to start streaming: "@;
}

/// A connection opens, subscribes, asks and then streams; no other event moves
/// it on, and each of these comes only at its stage.
pub proof fn law_a_connection_goes_stage_by_stage(stage: Stage, event: Event)
    ensures
        stage_after(stage, Event::Opened) is Subscribing,
        stage_after(stage, Event::Sent) is Asking,
        stage_after(stage, Event::Asked) is Streaming,
        !(event is Opened || event is Sent || event is Asked) ==> stage_after(stage, event)
            == stage,
        awaits(Stage::Opening, event) <==> event is Opened || event is NotOpened,
        awaits(Stage::Subscribing, event) <==> event is Sent || event is NotSent,
        awaits(Stage::Asking, event) <==> event is Asked || event is NotAsked,
        awaits(Stage::Streaming, event) <==> !(event is Opened || event is NotOpened || event
            is Sent || event is NotSent),
{
}

/// A connection is given up exactly if it did not open, could not subscribe, did
/// not get the sensor to stream in the first place, was refused, was closed or
/// dropped.
pub proof fn law_what_ends_a_connection(
    uid: Seq<char>,
    stage: Stage,
    event: Event,
    action: Action,
)
    requires
        awaits(stage, event),
        answers(uid, stage, event, action),
    ensures
        action is Fail <==> event is NotOpened || event is NotSent || (event is NotAsked && stage
            is Asking) || (event matches Event::Message(message) && is_refusal(message)) || event
            is Closed || event is Dropped,
        event matches Event::NotOpened(reason) ==> action->Fail_0@ == opening_fault(reason@),
        event matches Event::NotSent(reason) ==> action->Fail_0@
            == "could not subscribe to the sensor's waveforms: "@ + reason@,
        event matches Event::NotAsked(reason) ==> (stage is Asking ==> action->Fail_0@
            == asking_fault(uid, reason@)),
        event is Closed ==> action->Fail_0@ == "the backend closed the websocket"@,
        event matches Event::Dropped(reason) ==> action->Fail_0@ == "the websocket dropped: "@
            + reason@,
{
}

/// The subscription for the sensor is sent when the websocket opens and never
/// else; the sensor is asked after that and whenever it is time, and never else.
pub proof fn law_what_is_sent_and_asked(
    uid: Seq<char>,
    stage: Stage,
    event: Event,
    action: Action,
)
    requires
        awaits(stage, event),
        answers(uid, stage, event, action),
    ensures
        action is Send <==> event is Opened,
        action matches Action::Send(text) ==> text@ == subscription_text(json_spelling(uid)) && (
        all_alphanumeric(uid) ==> text@ == subscription_text(in_quotes(uid))),
        action is Ask <==> event is Sent || event is Due,
{
}

/// Every frame of text or bytes is read for a message, and every frame of
/// waveform in a message is unpacked for the sensor it is about; nothing else
/// is. A text that holds no message is reported with the reason.
pub proof fn law_what_is_read_and_unpacked(
    uid: Seq<char>,
    stage: Stage,
    event: Event,
    action: Action,
)
    requires
        awaits(stage, event),
        answers(uid, stage, event, action),
    ensures
        action is Read <==> event is Text || event is Binary,
        event matches Event::Text(text) ==> action == Action::Read(text),
        event matches Event::Binary(bytes) ==> action->Read_0@ == lossy_text(bytes@),
        action is Unpack <==> (event matches Event::Message(message) && !is_refusal(message)
            && waveform_in(message) is Some),
        event matches Event::Message(message) ==> (action matches Action::Unpack {
            uid: named,
            traces,
        } ==> waveform_in(message) == Some(traces) && named@ == sensor_named(message, uid)),
        event matches Event::Unreadable(reason) ==> (action matches Action::Report(
            Update::Notice(text),
        ) && text@ == "unreadable frame: "@ + reason@),
        event is Control ==> action is Wait,
        event is Asked && stage is Streaming ==> action is Wait,
        action matches Action::Report(Update::Connected { server, station }) ==> server@
            == "backend websocket"@ && station@ == uid,
{
}

/// A sensor gives up streaming a minute after it was last asked, so it is asked
/// again before that.
pub proof fn law_the_sensor_is_asked_in_time()
    ensures
        RETRIGGER_INTERVAL == 45,
        RETRIGGER_INTERVAL < 60,
        RECONNECT_DELAY == 3,
        STREAM_ACTION@ == "StreamWaveformsTrigger"@,
{
}

/// A frame is read only once the subscription was sent and the sensor was asked
/// to stream: no other stage awaits one, and none but these two events leads
/// there.
pub proof fn law_frames_follow_the_subscription_and_the_first_ask(
    uid: Seq<char>,
    stage: Stage,
    event: Event,
    action: Action,
)
    requires
        awaits(stage, event),
        answers(uid, stage, event, action),
    ensures
        action is Read || action is Unpack ==> stage is Streaming,
        stage_after(stage, event) is Streaming && !(stage is Streaming) ==> stage is Asking
            && event is Asked,
        stage_after(stage, event) is Asking && !(stage is Asking) ==> stage is Subscribing
            && event is Sent,
{
}

/// The view is told of the connection exactly once: when the sensor was first
/// asked to stream.
pub proof fn law_the_connection_is_announced_once(
    uid: Seq<char>,
    stage: Stage,
    event: Event,
    action: Action,
)
    requires
        awaits(stage, event),
        answers(uid, stage, event, action),
    ensures
        (action matches Action::Report(Update::Connected { .. })) <==> stage is Asking
            && event is Asked,
        stage is Streaming ==> stage_after(stage, event) is Streaming,
{
}

/// A sensor that cannot be asked again is reported and does not end the
/// connection.
pub proof fn law_a_failed_repeat_does_not_end_the_connection(
    uid: Seq<char>,
    stage: Stage,
    reason: String,
    action: Action,
)
    requires
        stage is Streaming,
        answers(uid, stage, Event::NotAsked(reason), action),
    ensures
        action matches Action::Report(Update::Notice(text)) && text@ == asking_fault(uid, reason@),
        stage_after(stage, Event::NotAsked(reason)) is Streaming,
{
}

/// A connection that streams asks the sensor again whenever it is time to, and
/// goes on streaming however the asking turns out; so the sensor is kept
/// streaming for as long as the connection is up.
pub proof fn law_the_sensor_is_asked_again_and_again(
    uid: Seq<char>,
    stage: Stage,
    action: Action,
    outcome: Event,
)
    requires
        stage is Streaming,
        answers(uid, stage, Event::Due, action),
        outcome is Asked || outcome is NotAsked,
    ensures
        awaits(stage, Event::Due),
        action is Ask,
        awaits(stage_after(stage, Event::Due), outcome),
        stage_after(stage_after(stage, Event::Due), outcome) is Streaming,
        awaits(stage_after(stage_after(stage, Event::Due), outcome), Event::Due),
{
}

/// A subscription that the backend refuses ends the connection with the reason.
pub proof fn law_a_refusal_ends_the_connection(
    uid: Seq<char>,
    stage: Stage,
    message: ServerMessage,
    action: Action,
)
    requires
        is_refusal(message),
        answers(uid, stage, Event::Message(message), action),
    ensures
        action matches Action::Fail(text) && text@ == refusal_text(message),
{
}

} // verus!
