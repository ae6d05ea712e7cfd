//! The account and its sensors: which of them a list shows, in which order and
//! how.
use vstd::prelude::*;

use crate::cli::{Facet, SensorFilter, SensorSort, FACETS};
use crate::order::{is_sort_of, law_sorted_items_ascend, reverse, sort, Order};
use crate::text::law_a_needle_stands_between_what_surrounds_it;
use crate::text::{at_or_before, contains, digits_text, quoted, texts};
use crate::text::law_a_text_begins_with_what_it_is_put_together_from;
use crate::text::{begins_with, stands_at};
use crate::text::{contains_text, debug_text, decimal, text_le};
use crate::text::{law_text_order_is_total, law_text_order_is_transitive};
use crate::timestamp::{elapsed, naive_time, pretty, read_naive};
use crate::timestamp::law_elapsed_time_is_the_difference;
use crate::timestamp::{elapsed_nanos, PrettyDuration, Timestamp};

verus! {

/// Where the backend answers.
pub const BASE_URL: &'static str = "https://api.network.quakesaver.net";

/// How long ago a sensor may last have been seen and still count as online: an
/// hour, in nanoseconds.
pub const OFFLINE_THRESHOLD: i128 = 3_600_000_000_000;

/// How many sensors the backend is asked for at a time.
pub const SENSOR_LIMIT: usize = 1000;

/// A client that has not signed in.
#[derive(Clone, Debug)]
pub struct StateDisconnected {}

/// A client that has signed in.
#[derive(Clone, Debug)]
pub struct StateConnected {
    pub token: String,
}

/// A client of the backend.
#[derive(Clone, Debug)]
pub struct SMIQClient<S> {
    pub state: S,
}

/// How to reach the backend, and as whom.
#[derive(Clone, Debug, PartialEq, Eq)]
pub struct ApiConfiguration {
    pub base_path: String,
    pub oauth_access_token: Option<String>,
}

/// How to reach the backend before signing in.
pub fn anonymous_configuration() -> (r: ApiConfiguration)
    ensures
        r.base_path@ == BASE_URL@,
        r.oauth_access_token is None,
{
    ApiConfiguration { base_path: BASE_URL.to_string(), oauth_access_token: None }
}

impl SMIQClient<StateDisconnected> {
    /// A client that has not signed in yet.
    pub fn new() -> (r: Self)
        ensures
            r == (SMIQClient { state: StateDisconnected {  } }),
    {
        SMIQClient { state: StateDisconnected {  } }
    }

    /// The client once the backend has given it a token.
    pub fn authenticate(self, token: String) -> (r: SMIQClient<StateConnected>)
        ensures
            r.state.token == token,
    {
        SMIQClient { state: StateConnected { token } }
    }
}

impl SMIQClient<StateConnected> {
    /// The token the backend gave.
    pub fn get_token(&self) -> (r: &str)
        ensures
            r@ == self.state.token@,
    {
        self.state.token.as_str()
    }

    /// How to reach the backend, carrying our access token.
    pub fn api_configuration(&self) -> (r: ApiConfiguration)
        ensures
            r.base_path@ == BASE_URL@,
            r.oauth_access_token matches Some(token) && token@ == self.state.token@,
    {
        ApiConfiguration {
            base_path: BASE_URL.to_string(),
            oauth_access_token: Some(self.get_token().to_string()),
        }
    }
}

/// What is wrong where a variable that holds a credential is missing.
pub open spec fn not_set(name: Seq<char>) -> Seq<char> {
    name + " is not set; see the README for how to sign in"@
}

/// The message begins with the variable that is missing, and goes on the same
/// for each of them.
pub proof fn law_a_missing_credential_is_named(one: Seq<char>, other: Seq<char>)
    ensures
        begins_with(not_set(one), one),
        not_set(one).skip(one.len() as int) == not_set(other).skip(other.len() as int),
        contains_text(not_set(one), "not set"@),
{
    reveal_strlit(" is not set; see the README for how to sign in");
    reveal_strlit("not set");
    let rest = " is not set; see the README for how to sign in"@;
    law_a_text_begins_with_what_it_is_put_together_from(not_set(one), one, rest);
    assert(not_set(one).skip(one.len() as int) =~= rest);
    assert(not_set(other).skip(other.len() as int) =~= rest);
    let at = one.len() as int + 4;
    assert(not_set(one).subrange(at, at + "not set"@.len()) =~= "not set"@);
    assert(stands_at(not_set(one), "not set"@, at));
}

fn credential(name: &str, value: Option<String>) -> (r: Result<String, String>)
    ensures
        match value {
            Some(text) => r == Ok::<String, String>(text),
            None => r matches Err(e) && e@ == not_set(name@),
        },
{
    match value {
        Some(text) => Ok(text),
        None => {
            let mut message = name.to_string();
            message.append(" is not set; see the README for how to sign in");
            Err(message)
        },
    }
}

/// The account to sign in with, from what the environment holds for the user
/// name and for the password.
pub fn credentials(username: Option<String>, password: Option<String>) -> (r: Result<
    (String, String),
    String,
>)
    ensures
        match (username, password) {
            (Some(user), Some(pass)) => r == Ok::<(String, String), String>((user, pass)),
            (None, _) => r matches Err(e) && e@ == not_set("SEISMIQ_USERNAME"@),
            (Some(_), None) => r matches Err(e) && e@ == not_set("SEISMIQ_PASSWORD"@),
        },
{
    let user = match credential("SEISMIQ_USERNAME", username) {
        Ok(text) => text,
        Err(e) => {
            return Err(e);
        },
    };
    let pass = match credential("SEISMIQ_PASSWORD", password) {
        Ok(text) => text,
        Err(e) => {
            return Err(e);
        },
    };
    Ok((user, pass))
}

/// The hardware family of a sensor, as far as a list cares.
#[derive(Clone, Copy, Debug, PartialEq, Eq, Structural)]
pub enum SensorKind {
    Mems,
    Hidra,
    Unknown,
}

/// The family of a hardware revision.
pub open spec fn kind_of(revision: Seq<char>) -> SensorKind {
    if contains_text(revision, "HIDRA"@) {
        SensorKind::Hidra
    } else if contains_text(revision, "ADXL"@) || contains_text(revision, "BMA"@) {
        SensorKind::Mems
    } else {
        SensorKind::Unknown
    }
}

impl SensorKind {
    /// Classify by the accelerometer named in the hardware revision (e.g.
    /// `OPI0_ADXL_1.0`, `RPI4_HIDRA_1.0`), so new revisions of a board we
    /// already know keep being recognised.
    pub fn from_revision(revision: &str) -> (r: Self)
        ensures
            r == kind_of(revision@),
    {
        if contains(revision, "HIDRA") {
            SensorKind::Hidra
        } else if contains(revision, "ADXL") || contains(revision, "BMA") {
            SensorKind::Mems
        } else {
            SensorKind::Unknown
        }
    }

    /// The name of the family.
    pub open spec fn label(self) -> Seq<char> {
        match self {
            SensorKind::Mems => "MEMS"@,
            SensorKind::Hidra => "HiDRA"@,
            SensorKind::Unknown => "unknown"@,
        }
    }

    /// The name of the family.
    pub fn to_text(self) -> (r: &'static str)
        ensures
            r@ == self.label(),
    {
        match self {
            SensorKind::Mems => "MEMS",
            SensorKind::Hidra => "HiDRA",
            SensorKind::Unknown => "unknown",
        }
    }
}

/// A HiDRA is a sensor whose revision names it; a MEMS one that names either
/// accelerometer and no HiDRA; a sensor that names none of them is unknown.
/// What stands around the name does not matter.
pub proof fn law_a_revision_is_known_by_what_it_names(
    revision: Seq<char>,
    front: Seq<char>,
    back: Seq<char>,
)
    ensures
        kind_of(front + "HIDRA"@ + back) is Hidra,
        !contains_text(front + "ADXL"@ + back, "HIDRA"@) ==> kind_of(
            front + "ADXL"@ + back,
        ) is Mems,
        !contains_text(front + "BMA"@ + back, "HIDRA"@) ==> kind_of(front + "BMA"@ + back) is Mems,
        kind_of(revision) is Hidra ==> contains_text(revision, "HIDRA"@),
        kind_of(revision) is Mems ==> !contains_text(revision, "HIDRA"@) && (contains_text(
            revision,
            "ADXL"@,
        ) || contains_text(revision, "BMA"@)),
        kind_of(revision) is Unknown ==> !contains_text(revision, "HIDRA"@) && !contains_text(
            revision,
            "ADXL"@,
        ) && !contains_text(revision, "BMA"@),
{
    law_a_needle_stands_between_what_surrounds_it(front, "HIDRA"@, back);
    law_a_needle_stands_between_what_surrounds_it(front, "ADXL"@, back);
    law_a_needle_stands_between_what_surrounds_it(front, "BMA"@, back);
}

/// Every family has a name of its own.
pub proof fn law_families_have_names_of_their_own(one: SensorKind, other: SensorKind)
    ensures
        one.label() == other.label() ==> one == other,
        one.label().len() == (match one {
            SensorKind::Mems => 4nat,
            SensorKind::Hidra => 5,
            SensorKind::Unknown => 7,
        }),
{
    reveal_strlit("MEMS");
    reveal_strlit("HiDRA");
    reveal_strlit("unknown");
}

/// The icon for a hardware revision.
pub open spec fn icon_of(revision: Seq<char>) -> Seq<char> {
    if contains_text(revision, "HIDRA"@) {
        "🌀"@
    } else if contains_text(revision, "ADXL"@) {
        "▣ "@
    } else if contains_text(revision, "BMA"@) {
        "🌋"@
    } else {
        "? "@
    }
}

/// The icon tells the families apart, and within the MEMS family the two
/// accelerometers; only a sensor of no known family shows a question mark.
pub proof fn law_icons_follow_the_hardware(revision: Seq<char>)
    ensures
        icon_of(revision) == "🌀"@ <==> kind_of(revision) is Hidra,
        icon_of(revision) == "? "@ <==> kind_of(revision) is Unknown,
        icon_of(revision) == "▣ "@ <==> kind_of(revision) is Mems && contains_text(
            revision,
            "ADXL"@,
        ),
        icon_of(revision) == "🌋"@ <==> kind_of(revision) is Mems && !contains_text(
            revision,
            "ADXL"@,
        ),
{
    reveal_strlit("🌀");
    reveal_strlit("? ");
    reveal_strlit("▣ ");
    reveal_strlit("🌋");
    assert("🌀"@[0] != "? "@[0] && "🌀"@[0] != "▣ "@[0] && "🌀"@[0] != "🌋"@[0]);
    assert("? "@[0] != "▣ "@[0] && "? "@[0] != "🌋"@[0] && "▣ "@[0] != "🌋"@[0]);
}

/// The icon for a hardware revision, padded to two terminal columns so the
/// single-width symbols line up with the emoji.
pub fn revision_icon(revision: &str) -> (r: &'static str)
    ensures
        r@ == icon_of(revision@),
{
    if contains(revision, "HIDRA") {
        "🌀"
    } else if contains(revision, "ADXL") {
        "▣ "
    } else if contains(revision, "BMA") {
        "🌋"
    } else {
        "? "
    }
}

/// The warnings a sensor reports.
#[derive(Clone, Debug, PartialEq, Eq)]
pub struct Warnings {
    pub data: Option<Vec<String>>,
}

/// A sensor as the backend describes it.
#[derive(Clone, Debug, PartialEq, Eq)]
pub struct Sensor {
    pub uid: String,
    pub software_version: String,
    pub hardware_revision: String,
    pub first_seen: String,
    pub last_updated: String,
    pub warnings: Option<Warnings>,
    pub max_data_product_count: i32,
}

impl Sensor {
    /// How many warnings the sensor reports.
    pub open spec fn warning_count(self) -> nat {
        match self.warnings {
            Some(warnings) => match warnings.data {
                Some(data) => data@.len(),
                None => 0,
            },
            None => 0,
        }
    }

    fn count_warnings(&self) -> (n: usize)
        ensures
            n == self.warning_count(),
    {
        match &self.warnings {
            Some(warnings) => match &warnings.data {
                Some(data) => data.len(),
                None => 0,
            },
            None => 0,
        }
    }
}

/// A sensor prepared for display: everything the filters, the sort and the
/// table need, read once.
#[derive(Clone, Debug, PartialEq, Eq)]
pub struct SensorRow {
    pub uid: String,
    pub kind: SensorKind,
    pub revision: String,
    pub software_version: String,
    pub first_seen: Option<Timestamp>,
    /// How long ago the sensor was last seen, in nanoseconds.
    pub last_seen: i128,
    pub warnings: usize,
}

/// The row of a sensor that was last seen and first seen at the given times.
pub open spec fn row_of(
    sensor: Sensor,
    last_updated: Option<Timestamp>,
    first_seen: Option<Timestamp>,
    now: Timestamp,
) -> Option<SensorRow> {
    match last_updated {
        Some(seen) => Some(
            SensorRow {
                uid: sensor.uid,
                kind: kind_of(sensor.hardware_revision@),
                revision: sensor.hardware_revision,
                software_version: sensor.software_version,
                first_seen: first_seen,
                last_seen: elapsed(now, seen) as i128,
                warnings: sensor.warning_count() as usize,
            },
        ),
        None => None,
    }
}

/// The time that was read, if one was.
pub open spec fn time_read(read: Result<Timestamp, Seq<char>>) -> Option<Timestamp> {
    match read {
        Ok(time) => Some(time),
        Err(_) => None,
    }
}

/// The row of a sensor, its times read the way `chrono` reads them.
pub open spec fn read_row(sensor: Sensor, now: Timestamp) -> Option<SensorRow> {
    row_of(
        sensor,
        time_read(naive_time(sensor.last_updated@)),
        time_read(naive_time(sensor.first_seen@)),
        now,
    )
}

impl SensorRow {
    /// The row of a sensor whose times have been read. There is none where the
    /// time it was last updated could not be read, since every filter and sort
    /// key hangs off it.
    pub fn from_times(
        sensor: &Sensor,
        last_updated: Option<Timestamp>,
        first_seen: Option<Timestamp>,
        now: Timestamp,
    ) -> (r: Option<Self>)
        ensures
            r == row_of(*sensor, last_updated, first_seen, now),
    {
        match last_updated {
            Some(seen) => Some(
                SensorRow {
                    uid: sensor.uid.clone(),
                    kind: SensorKind::from_revision(sensor.hardware_revision.as_str()),
                    revision: sensor.hardware_revision.clone(),
                    software_version: sensor.software_version.clone(),
                    first_seen,
                    last_seen: elapsed_nanos(now, seen),
                    warnings: sensor.count_warnings(),
                },
            ),
            None => None,
        }
    }

    /// The row of a sensor. There is none for a sensor whose `last_updated` the
    /// backend sent in a shape we cannot read; an unreadable `first_seen` only
    /// costs the sort key.
    pub fn from_sensor(sensor: &Sensor, now: Timestamp) -> (r: Option<Self>)
        ensures
            r == read_row(*sensor, now),
    {
        let last_updated = read_naive(sensor.last_updated.as_str());
        let first_seen = read_naive(sensor.first_seen.as_str());
        SensorRow::from_times(sensor, last_updated.ok(), first_seen.ok(), now)
    }

    /// The sensor was seen within the last hour.
    pub open spec fn is_online(self) -> bool {
        self.last_seen <= OFFLINE_THRESHOLD
    }

    /// Whether the sensor was seen within the last hour.
    pub fn online(&self) -> (r: bool)
        ensures
            r == self.is_online(),
    {
        self.last_seen <= OFFLINE_THRESHOLD
    }

    /// The sensor satisfies the filter.
    pub open spec fn satisfies(self, filter: SensorFilter) -> bool {
        match filter {
            SensorFilter::Online => self.is_online(),
            SensorFilter::Offline => !self.is_online(),
            SensorFilter::Mems => self.kind is Mems,
            SensorFilter::Hidra => self.kind is Hidra,
            SensorFilter::Unknown => self.kind is Unknown,
            SensorFilter::Warnings => self.warnings > 0,
        }
    }

    /// Whether the sensor satisfies the filter.
    pub fn matches(&self, filter: SensorFilter) -> (r: bool)
        ensures
            r == self.satisfies(filter),
            filter is Warnings ==> (r <==> self.warnings >= 1),
    {
        match filter {
            SensorFilter::Online => self.online(),
            SensorFilter::Offline => !self.online(),
            SensorFilter::Mems => self.kind == SensorKind::Mems,
            SensorFilter::Hidra => self.kind == SensorKind::Hidra,
            SensorFilter::Unknown => self.kind == SensorKind::Unknown,
            SensorFilter::Warnings => self.warnings > 0,
        }
    }

    /// One of the filters on the facet lets the sensor through, or there is
    /// none on it.
    pub open spec fn passes(self, filters: Seq<SensorFilter>, facet: Facet) -> bool {
        (exists|i: int| 0 <= i < filters.len() && (#[trigger] filters[i]).spec_facet() == facet)
            ==> (exists|i: int|
            0 <= i < filters.len() && (#[trigger] filters[i]).spec_facet() == facet
                && self.satisfies(filters[i]))
    }

    /// The sensor satisfies every facet filtered on.
    pub open spec fn is_selected(self, filters: Seq<SensorFilter>) -> bool {
        forall|facet: Facet| self.passes(filters, facet)
    }

    fn passes_facet(&self, filters: &[SensorFilter], facet: Facet) -> (r: bool)
        ensures
            r == self.passes(filters@, facet),
    {
        let mut asked = false;
        let mut i: usize = 0;
        while i < filters.len()
            invariant
                i <= filters@.len(),
                asked == (exists|j: int|
                    0 <= j < i && (#[trigger] filters@[j]).spec_facet() == facet),
                forall|j: int|
                    0 <= j < i && (#[trigger] filters@[j]).spec_facet() == facet
                        ==> !self.satisfies(filters@[j]),
            decreases filters@.len() - i,
        {
            if filters[i].facet() == facet {
                asked = true;
                if self.matches(filters[i]) {
                    return true;
                }
            }
            i += 1;
        }
        !asked
    }

    /// Whether the sensor is selected: it satisfies every facet the user
    /// filtered on. Facets nobody filtered on let everything through.
    pub fn selected_by(&self, filters: &[SensorFilter]) -> (r: bool)
        ensures
            r == self.is_selected(filters@),
    {
        let mut k: usize = 0;
        while k < 3
            invariant
                k <= 3,
                forall|j: int| 0 <= j < k ==> self.passes(filters@, #[trigger] FACETS@[j]),
            decreases 3 - k,
        {
            if !self.passes_facet(filters, FACETS[k]) {
                return false;
            }
            k += 1;
        }
        proof {
            assert(self.passes(filters@, FACETS@[0]));
            assert(self.passes(filters@, FACETS@[1]));
            assert(self.passes(filters@, FACETS@[2]));
            assert forall|facet: Facet| self.passes(filters@, facet) by {
                match facet {
                    Facet::Status => {},
                    Facet::Family => {},
                    Facet::Warnings => {},
                }
            }
        }
        true
    }
}

/// What each filter asks for: to have been seen an hour ago or less, or longer
/// ago than that; to be of a family; to carry at least one warning.
pub proof fn law_filters_say_what_they_let_through(row: SensorRow)
    ensures
        row.satisfies(SensorFilter::Online) <==> row.last_seen <= 60 * 60 * 1_000_000_000,
        row.satisfies(SensorFilter::Offline) <==> row.last_seen > 60 * 60 * 1_000_000_000,
        row.satisfies(SensorFilter::Mems) <==> row.kind == SensorKind::Mems,
        row.satisfies(SensorFilter::Hidra) <==> row.kind == SensorKind::Hidra,
        row.satisfies(SensorFilter::Unknown) <==> row.kind == SensorKind::Unknown,
        row.satisfies(SensorFilter::Warnings) <==> row.warnings >= 1,
        row.is_online() <==> row.last_seen <= 60 * 60 * 1_000_000_000,
{
}

/// A sensor is selected exactly if it passes what was asked of its status, of
/// its family and of its warnings: any one of the filters given on each of
/// them, and nothing where none was given.
pub proof fn law_selection_is_any_within_and_all_across(
    row: SensorRow,
    filters: Seq<SensorFilter>,
)
    ensures
        row.is_selected(filters) <==> {
            &&& filters.contains(SensorFilter::Online) || filters.contains(SensorFilter::Offline)
                ==> {
                ||| filters.contains(SensorFilter::Online) && row.last_seen <= 60 * 60
                    * 1_000_000_000
                ||| filters.contains(SensorFilter::Offline) && row.last_seen > 60 * 60
                    * 1_000_000_000
            }
            &&& filters.contains(SensorFilter::Mems) || filters.contains(SensorFilter::Hidra)
                || filters.contains(SensorFilter::Unknown) ==> {
                ||| filters.contains(SensorFilter::Mems) && row.kind == SensorKind::Mems
                ||| filters.contains(SensorFilter::Hidra) && row.kind == SensorKind::Hidra
                ||| filters.contains(SensorFilter::Unknown) && row.kind == SensorKind::Unknown
            }
            &&& filters.contains(SensorFilter::Warnings) ==> row.warnings >= 1
        },
{
    lemma_passes_any(row, filters, Facet::Status);
    lemma_passes_any(row, filters, Facet::Family);
    lemma_passes_any(row, filters, Facet::Warnings);
    if row.passes(filters, Facet::Status) && row.passes(filters, Facet::Family) && row.passes(
        filters,
        Facet::Warnings,
    ) {
        assert forall|facet: Facet| row.passes(filters, facet) by {
            match facet {
                Facet::Status => {},
                Facet::Family => {},
                Facet::Warnings => {},
            }
        }
    }
}

/// A facet is passed by a filter on it that is given and satisfied, or because
/// none is given.
proof fn lemma_passes_any(row: SensorRow, filters: Seq<SensorFilter>, facet: Facet)
    ensures
        row.passes(filters, facet) <==> {
            ||| exists|filter: SensorFilter| #[trigger]
                filters.contains(filter) && filter.spec_facet() == facet && row.satisfies(filter)
            ||| forall|filter: SensorFilter| #[trigger]
                filters.contains(filter) ==> filter.spec_facet() != facet
        },
{
    if exists|filter: SensorFilter| #[trigger]
        filters.contains(filter) && filter.spec_facet() == facet && row.satisfies(filter) {
        let filter = choose|filter: SensorFilter| #[trigger]
            filters.contains(filter) && filter.spec_facet() == facet && row.satisfies(filter);
        let i = choose|i: int| 0 <= i < filters.len() && filters[i] == filter;
        assert(filters[i].spec_facet() == facet && row.satisfies(filters[i]));
    }
    if exists|i: int| 0 <= i < filters.len() && (#[trigger] filters[i]).spec_facet() == facet {
        let i = choose|i: int|
            0 <= i < filters.len() && (#[trigger] filters[i]).spec_facet() == facet;
        assert(filters.contains(filters[i]));
    }
    if exists|i: int|
        0 <= i < filters.len() && (#[trigger] filters[i]).spec_facet() == facet && row.satisfies(
            filters[i],
        ) {
        let i = choose|i: int|
            0 <= i < filters.len() && (#[trigger] filters[i]).spec_facet() == facet
                && row.satisfies(filters[i]);
        assert(filters.contains(filters[i]));
    }
    if forall|filter: SensorFilter| #[trigger]
        filters.contains(filter) ==> filter.spec_facet() != facet {
        assert forall|i: int| 0 <= i < filters.len() implies (
        #[trigger] filters[i]).spec_facet() != facet by {
            assert(filters.contains(filters[i]));
        }
    }
}

/// A sensor has a row exactly if the time it was last updated was read. The row
/// holds what the sensor says of itself, its family, how long ago it was last
/// seen and how many warnings it reports; so it passes for warned exactly if
/// the backend lists a warning, and for online exactly if it was seen within
/// the hour before now.
pub proof fn law_a_row_holds_what_the_sensor_reports(
    sensor: Sensor,
    last_updated: Option<Timestamp>,
    first_seen: Option<Timestamp>,
    now: Timestamp,
)
    ensures
        row_of(sensor, last_updated, first_seen, now) is Some <==> last_updated is Some,
        row_of(sensor, last_updated, first_seen, now) matches Some(row) ==> {
            &&& row.uid == sensor.uid
            &&& row.revision == sensor.hardware_revision
            &&& row.software_version == sensor.software_version
            &&& row.first_seen == first_seen
            &&& row.kind == kind_of(sensor.hardware_revision@)
            &&& row.last_seen == elapsed(now, last_updated->0)
            &&& now.nanos < 1_000_000_000 && last_updated->0.nanos < 1_000_000_000 ==> {
                &&& row.last_seen == (now.seconds - last_updated->0.seconds) * 1_000_000_000 + (
                now.nanos - last_updated->0.nanos)
                &&& row.satisfies(SensorFilter::Online) <==> now.seconds * 1_000_000_000 + now.nanos
                    <= (last_updated->0.seconds + 3600) * 1_000_000_000 + last_updated->0.nanos
            }
            &&& match sensor.warnings {
                Some(Warnings { data: Some(listed) }) => row.warnings == listed@.len()
                    && row.satisfies(SensorFilter::Warnings) == (listed@.len() >= 1),
                _ => row.warnings == 0 && !row.satisfies(SensorFilter::Warnings),
            }
        },
{
    if let Some(seen) = last_updated {
        law_elapsed_time_is_the_difference(now, seen);
        assert(elapsed(now, seen) as i128 == elapsed(now, seen));
        if let Some(Warnings { data: Some(listed) }) = sensor.warnings {
            assert(listed.len() == listed@.len());
        }
    }
}

/// Without filters every sensor is selected.
pub proof fn law_no_filters_select_everything(row: SensorRow)
    ensures
        row.is_selected(Seq::empty()),
{
}

/// A filter on a facet that is filtered on already widens the selection: what
/// was selected stays so, and what it lets through passes that facet.
pub proof fn law_filters_of_one_facet_widen(
    row: SensorRow,
    filters: Seq<SensorFilter>,
    more: SensorFilter,
)
    requires
        exists|i: int|
            0 <= i < filters.len() && (#[trigger] filters[i]).spec_facet() == more.spec_facet(),
    ensures
        row.is_selected(filters) ==> row.is_selected(filters.push(more)),
        row.satisfies(more) ==> row.passes(filters.push(more), more.spec_facet()),
        forall|facet: Facet|
            facet != more.spec_facet() ==> #[trigger] row.passes(filters.push(more), facet)
                == row.passes(filters, facet),
{
    let wider = filters.push(more);
    assert forall|facet: Facet| facet != more.spec_facet() implies #[trigger] row.passes(
        wider,
        facet,
    ) == row.passes(filters, facet) by {
        lemma_other_facets_unmoved(row, filters, more, facet);
    }
    if row.satisfies(more) {
        assert(wider[filters.len() as int] == more);
    }
    if row.is_selected(filters) {
        assert forall|facet: Facet| row.passes(wider, facet) by {
            assert(row.passes(filters, facet));
            if facet == more.spec_facet() {
                let i = choose|i: int|
                    0 <= i < filters.len() && (#[trigger] filters[i]).spec_facet() == facet
                        && row.satisfies(filters[i]);
                assert(wider[i] == filters[i]);
            }
        }
    }
}

proof fn lemma_other_facets_unmoved(
    row: SensorRow,
    filters: Seq<SensorFilter>,
    more: SensorFilter,
    facet: Facet,
)
    requires
        facet != more.spec_facet(),
    ensures
        row.passes(filters.push(more), facet) == row.passes(filters, facet),
{
    let wider = filters.push(more);
    assert forall|i: int| 0 <= i < filters.len() implies #[trigger] wider[i] == filters[i] by {}
    assert forall|i: int| 0 <= i < filters.len() implies #[trigger] filters[i] == wider[i] by {}
    if exists|i: int| 0 <= i < wider.len() && (#[trigger] wider[i]).spec_facet() == facet {
        let i = choose|i: int| 0 <= i < wider.len() && (#[trigger] wider[i]).spec_facet() == facet;
        assert(filters[i].spec_facet() == facet);
    }
    if exists|i: int| 0 <= i < filters.len() && (#[trigger] filters[i]).spec_facet() == facet {
        let i = choose|i: int|
            0 <= i < filters.len() && (#[trigger] filters[i]).spec_facet() == facet;
        assert(wider[i].spec_facet() == facet);
    }
    if exists|i: int|
        0 <= i < wider.len() && (#[trigger] wider[i]).spec_facet() == facet && row.satisfies(
            wider[i],
        ) {
        let i = choose|i: int|
            0 <= i < wider.len() && (#[trigger] wider[i]).spec_facet() == facet && row.satisfies(
                wider[i],
            );
        assert(filters[i].spec_facet() == facet && row.satisfies(filters[i]));
    }
    if exists|i: int|
        0 <= i < filters.len() && (#[trigger] filters[i]).spec_facet() == facet && row.satisfies(
            filters[i],
        ) {
        let i = choose|i: int|
            0 <= i < filters.len() && (#[trigger] filters[i]).spec_facet() == facet
                && row.satisfies(filters[i]);
        assert(wider[i].spec_facet() == facet && row.satisfies(wider[i]));
    }
}

/// A filter on a facet that nobody filtered on narrows the selection to the
/// sensors that satisfy it.
pub proof fn law_filters_across_facets_narrow(
    row: SensorRow,
    filters: Seq<SensorFilter>,
    more: SensorFilter,
)
    requires
        forall|i: int|
            0 <= i < filters.len() ==> (#[trigger] filters[i]).spec_facet() != more.spec_facet(),
    ensures
        row.is_selected(filters.push(more)) <==> row.is_selected(filters) && row.satisfies(more),
{
    let wider = filters.push(more);
    assert(wider[filters.len() as int] == more);
    assert forall|facet: Facet| facet != more.spec_facet() implies #[trigger] row.passes(
        wider,
        facet,
    ) == row.passes(filters, facet) by {
        lemma_other_facets_unmoved(row, filters, more, facet);
    }
    assert(row.passes(filters, more.spec_facet()));
    if row.is_selected(wider) {
        assert(row.passes(wider, more.spec_facet()));
        let i = choose|i: int|
            0 <= i < wider.len() && (#[trigger] wider[i]).spec_facet() == more.spec_facet()
                && row.satisfies(wider[i]);
        if i < filters.len() {
            assert(filters[i] == wider[i]);
        }
        assert(row.satisfies(more));
        assert forall|facet: Facet| row.passes(filters, facet) by {
            assert(row.passes(wider, facet));
        }
    }
    if row.is_selected(filters) && row.satisfies(more) {
        assert forall|facet: Facet| row.passes(wider, facet) by {
            assert(row.passes(filters, facet));
        }
    }
}

/// Every sensor is online or offline, and of one hardware family, and never
/// two.
pub proof fn law_status_and_family_are_exclusive(row: SensorRow)
    ensures
        row.satisfies(SensorFilter::Online) != row.satisfies(SensorFilter::Offline),
        row.satisfies(SensorFilter::Mems) || row.satisfies(SensorFilter::Hidra) || row.satisfies(
            SensorFilter::Unknown,
        ),
        !(row.satisfies(SensorFilter::Mems) && row.satisfies(SensorFilter::Hidra)),
        !(row.satisfies(SensorFilter::Mems) && row.satisfies(SensorFilter::Unknown)),
        !(row.satisfies(SensorFilter::Hidra) && row.satisfies(SensorFilter::Unknown)),
{
}

/// `a` may stand before `b` by a first key, or by the rest where they tie.
pub open spec fn by_key(le: bool, ge: bool, rest: bool) -> bool {
    le && (ge ==> rest)
}

/// A time that could not be read comes before every time.
pub open spec fn maybe_le(a: Option<Timestamp>, b: Option<Timestamp>) -> bool {
    match (a, b) {
        (None, _) => true,
        (Some(_), None) => false,
        (Some(x), Some(y)) => x.le(y),
    }
}

fn maybe_not_after(a: Option<Timestamp>, b: Option<Timestamp>) -> (r: bool)
    ensures
        r == maybe_le(a, b),
{
    match (a, b) {
        (None, _) => true,
        (Some(_), None) => false,
        (Some(x), Some(y)) => x.not_after(y),
    }
}

impl Order<SensorRow> for SensorSort {
    /// The order of the rows by a column. Rows that share a value are in order
    /// of their UID.
    open spec fn le(self, a: SensorRow, b: SensorRow) -> bool {
        let uid = text_le(a.uid@, b.uid@);
        match self {
            SensorSort::Uid => uid,
            SensorSort::LastSeen => by_key(
                a.last_seen <= b.last_seen,
                b.last_seen <= a.last_seen,
                uid,
            ),
            SensorSort::FirstSeen => by_key(
                maybe_le(a.first_seen, b.first_seen),
                maybe_le(b.first_seen, a.first_seen),
                uid,
            ),
            SensorSort::Version => by_key(
                text_le(a.software_version@, b.software_version@),
                text_le(b.software_version@, a.software_version@),
                uid,
            ),
            SensorSort::Type => by_key(
                text_le(a.kind.label(), b.kind.label()),
                text_le(b.kind.label(), a.kind.label()),
                uid,
            ),
            SensorSort::Warnings => by_key(a.warnings <= b.warnings, b.warnings <= a.warnings, uid),
        }
    }

    proof fn total(self, a: SensorRow, b: SensorRow) {
        law_text_order_is_total(a.uid@, b.uid@);
        law_text_order_is_total(a.software_version@, b.software_version@);
        law_text_order_is_total(a.kind.label(), b.kind.label());
    }

    proof fn transitive(self, a: SensorRow, b: SensorRow, c: SensorRow) {
        lemma_text_chain(a.uid@, b.uid@, c.uid@);
        lemma_text_chain(a.software_version@, b.software_version@, c.software_version@);
        lemma_text_chain(a.kind.label(), b.kind.label(), c.kind.label());
    }

    fn leq(&self, a: &SensorRow, b: &SensorRow) -> (r: bool) {
        match self {
            SensorSort::Uid => uid_le(a, b),
            SensorSort::LastSeen => a.last_seen < b.last_seen || (a.last_seen == b.last_seen
                && uid_le(a, b)),
            SensorSort::FirstSeen => maybe_not_after(a.first_seen, b.first_seen) && (
            !maybe_not_after(b.first_seen, a.first_seen) || uid_le(a, b)),
            SensorSort::Version => at_or_before(
                a.software_version.as_str(),
                b.software_version.as_str(),
            ) && (!at_or_before(b.software_version.as_str(), a.software_version.as_str())
                || uid_le(a, b)),
            SensorSort::Type => {
                let x = a.kind.to_text();
                let y = b.kind.to_text();
                at_or_before(x, y) && (!at_or_before(y, x) || uid_le(a, b))
            },
            SensorSort::Warnings => a.warnings < b.warnings || (a.warnings == b.warnings && uid_le(
                a,
                b,
            )),
        }
    }
}

fn uid_le(a: &SensorRow, b: &SensorRow) -> (r: bool)
    ensures
        r == text_le(a.uid@, b.uid@),
{
    at_or_before(a.uid.as_str(), b.uid.as_str())
}

/// Three texts in a row: the first stands before the last, and a last that
/// stands before the first ties all three.
proof fn lemma_text_chain(a: Seq<char>, b: Seq<char>, c: Seq<char>)
    ensures
        text_le(a, b) && text_le(b, c) ==> text_le(a, c),
        text_le(a, b) && text_le(b, c) && text_le(c, a) ==> text_le(b, a) && text_le(c, b),
{
    if text_le(a, b) && text_le(b, c) {
        law_text_order_is_transitive(a, b, c);
        if text_le(c, a) {
            law_text_order_is_transitive(b, c, a);
            law_text_order_is_transitive(c, a, b);
        }
    }
}

/// What two rows have in a column is the same.
pub open spec fn shares(by: SensorSort, a: SensorRow, b: SensorRow) -> bool {
    match by {
        SensorSort::Uid => a.uid@ == b.uid@,
        SensorSort::LastSeen => a.last_seen == b.last_seen,
        SensorSort::FirstSeen => a.first_seen == b.first_seen,
        SensorSort::Version => a.software_version@ == b.software_version@,
        SensorSort::Type => a.kind == b.kind,
        SensorSort::Warnings => a.warnings == b.warnings,
    }
}

/// Rows sharing a value in the column they are sorted by are in order of their
/// UID.
pub proof fn law_rows_sharing_a_value_are_ordered_by_uid(
    before: Seq<SensorRow>,
    after: Seq<SensorRow>,
    by: SensorSort,
    i: int,
    j: int,
)
    requires
        is_sort_of(before, after, by),
        0 <= i < j < after.len(),
        shares(by, after[i], after[j]),
    ensures
        text_le(after[i].uid@, after[j].uid@),
{
    let a = after[i];
    let b = after[j];
    assert(by.le(a, b));
    law_text_order_is_total(a.software_version@, b.software_version@);
    law_text_order_is_total(a.kind.label(), b.kind.label());
}

/// Sorted by when it was last seen, a sensor stands before every sensor that
/// has been silent for longer.
pub proof fn law_the_freshest_come_first(
    before: Seq<SensorRow>,
    after: Seq<SensorRow>,
    i: int,
    j: int,
)
    requires
        is_sort_of(before, after, SensorSort::LastSeen),
        0 <= i < j < after.len(),
    ensures
        after[i].last_seen <= after[j].last_seen,
{
    assert(SensorSort::LastSeen.le(after[i], after[j]));
}

/// What stands further down a sorted list has no less in the column it is
/// sorted by: it was seen no more recently, first seen no earlier, has no
/// earlier version or UID and no fewer warnings. A time that could not be read
/// stands first; HiDRAs stand before MEMS sensors and both before unknown ones.
pub proof fn law_sorted_rows_ascend(
    before: Seq<SensorRow>,
    after: Seq<SensorRow>,
    by: SensorSort,
    i: int,
    j: int,
)
    requires
        is_sort_of(before, after, by),
        0 <= i < j < after.len(),
    ensures
        match by {
            SensorSort::Uid => text_le(after[i].uid@, after[j].uid@),
            SensorSort::LastSeen => after[i].last_seen <= after[j].last_seen,
            SensorSort::FirstSeen => match (after[i].first_seen, after[j].first_seen) {
                (Some(a), Some(b)) => a.seconds < b.seconds || (a.seconds == b.seconds && a.nanos
                    <= b.nanos),
                (Some(_), None) => false,
                (None, _) => true,
            },
            SensorSort::Version => text_le(after[i].software_version@, after[j].software_version@),
            SensorSort::Type => match (after[i].kind, after[j].kind) {
                (SensorKind::Hidra, _) => true,
                (SensorKind::Mems, kind) => !(kind is Hidra),
                (SensorKind::Unknown, kind) => kind is Unknown,
            },
            SensorSort::Warnings => after[i].warnings <= after[j].warnings,
        },
{
    law_sorted_items_ascend(before, after, by, i, j);
    lemma_family_names_in_order();
}

/// The names of the families, in the order of texts.
proof fn lemma_family_names_in_order()
    ensures
        !text_le("MEMS"@, "HiDRA"@),
        !text_le("unknown"@, "HiDRA"@),
        !text_le("unknown"@, "MEMS"@),
{
    reveal_strlit("MEMS");
    reveal_strlit("HiDRA");
    reveal_strlit("unknown");
    assert("MEMS"@[0] == 'M' && "HiDRA"@[0] == 'H' && "unknown"@[0] == 'u');
}

/// The columns order the rows and not only the list: of two rows that differ in
/// a column the one with less may stand before the other and not after it, and
/// of two that share it the one with the lower UID.
pub proof fn law_columns_order_rows(by: SensorSort, a: SensorRow, b: SensorRow)
    ensures
        by is LastSeen && a.last_seen < b.last_seen ==> by.le(a, b) && !by.le(b, a),
        by is Warnings && a.warnings < b.warnings ==> by.le(a, b) && !by.le(b, a),
        by is Version && text_le(a.software_version@, b.software_version@) && a.software_version@
            != b.software_version@ ==> by.le(a, b) && !by.le(b, a),
        by is FirstSeen && (a.first_seen matches Some(x) && b.first_seen matches Some(y) && (
        x.seconds < y.seconds || (x.seconds == y.seconds && x.nanos < y.nanos))) ==> by.le(a, b)
            && !by.le(b, a),
        by is FirstSeen && a.first_seen is None && b.first_seen is Some ==> by.le(a, b) && !by.le(
            b,
            a,
        ),
        by is Type && a.kind is Hidra && !(b.kind is Hidra) ==> by.le(a, b) && !by.le(b, a),
        by is Type && a.kind is Mems && b.kind is Unknown ==> by.le(a, b) && !by.le(b, a),
        shares(by, a, b) ==> (by.le(a, b) <==> text_le(a.uid@, b.uid@)),
        by is Uid ==> (by.le(a, b) <==> text_le(a.uid@, b.uid@)),
{
    law_text_order_is_total(a.software_version@, b.software_version@);
    law_text_order_is_total(a.uid@, b.uid@);
    law_text_order_is_total(a.kind.label(), b.kind.label());
    lemma_family_names_in_order();
}

/// Puts the rows in order of a column, and turns them around if asked to.
pub fn sort_sensors(rows: &mut Vec<SensorRow>, by: SensorSort, descending: bool)
    ensures
        exists|sorted: Seq<SensorRow>|
            #![trigger is_sort_of(old(rows)@, sorted, by)]
            is_sort_of(old(rows)@, sorted, by) && final(rows)@ == (if descending {
                sorted.reverse()
            } else {
                sorted
            }),
{
    sort(rows, &by);
    if descending {
        reverse(rows);
    }
}

/// The rows of the sensors that the filters select, in the order of the
/// sensors.
pub open spec fn selection(
    sensors: Seq<Sensor>,
    now: Timestamp,
    filters: Seq<SensorFilter>,
) -> Seq<SensorRow>
    decreases sensors.len(),
{
    if sensors.len() == 0 {
        Seq::empty()
    } else {
        let before = selection(sensors.drop_last(), now, filters);
        match read_row(sensors.last(), now) {
            Some(row) => if row.is_selected(filters) {
                before.push(row)
            } else {
                before
            },
            None => before,
        }
    }
}

/// Selecting goes sensor by sensor: the rows of two lists one after the other
/// are the rows of the one and then those of the other, and a sensor alone gives
/// its row if it has one that is selected.
pub proof fn law_selecting_goes_sensor_by_sensor(
    front: Seq<Sensor>,
    back: Seq<Sensor>,
    sensor: Sensor,
    now: Timestamp,
    filters: Seq<SensorFilter>,
)
    ensures
        selection(front + back, now, filters) == selection(front, now, filters) + selection(
            back,
            now,
            filters,
        ),
        selection(seq![sensor], now, filters) == (match naive_time(sensor.last_updated@) {
            Ok(seen) => {
                let first = match naive_time(sensor.first_seen@) {
                    Ok(time) => Some(time),
                    Err(_) => None,
                };
                let row = row_of(sensor, Some(seen), first, now)->0;
                if row.is_selected(filters) {
                    seq![row]
                } else {
                    seq![]
                }
            },
            Err(_) => seq![],
        }),
        selection(seq![], now, filters) == Seq::<SensorRow>::empty(),
    decreases back.len(),
{
    let all = front + back;
    assert(seq![sensor].drop_last() =~= seq![]);
    assert(selection(seq![], now, filters) =~= seq![]);
    if back.len() == 0 {
        assert(all =~= front);
        assert(back =~= seq![]);
    } else {
        assert(all.drop_last() =~= front + back.drop_last());
        law_selecting_goes_sensor_by_sensor(front, back.drop_last(), sensor, now, filters);
    }
    assert(selection(all, now, filters) =~= selection(front, now, filters) + selection(
        back,
        now,
        filters,
    ));
    let alone = selection(seq![sensor], now, filters);
    if alone.len() == 1 {
        assert(alone =~= seq![alone[0]]);
    }
}

/// A row is selected exactly if it is the row of one of the sensors and the
/// filters let it through.
pub proof fn law_selected_rows_are_those_of_the_sensors(
    sensors: Seq<Sensor>,
    now: Timestamp,
    filters: Seq<SensorFilter>,
    row: SensorRow,
)
    ensures
        selection(sensors, now, filters).contains(row) <==> row.is_selected(filters) && exists|
            i: int,
        |
            0 <= i < sensors.len() && read_row(#[trigger] sensors[i], now) == Some(row),
    decreases sensors.len(),
{
    let rows = selection(sensors, now, filters);
    if sensors.len() > 0 {
        let front = sensors.drop_last();
        let before = selection(front, now, filters);
        law_selected_rows_are_those_of_the_sensors(front, now, filters, row);
        assert(rows.contains(row) <==> before.contains(row) || (read_row(sensors.last(), now)
            == Some(row) && row.is_selected(filters))) by {
            if before.contains(row) {
                let k = choose|k: int| 0 <= k < before.len() && before[k] == row;
                assert(rows[k] == row);
            }
            if read_row(sensors.last(), now) == Some(row) && row.is_selected(filters) {
                assert(rows[rows.len() - 1] == row);
            }
        }
        if exists|i: int| 0 <= i < front.len() && read_row(#[trigger] front[i], now) == Some(row) {
            let i = choose|i: int|
                0 <= i < front.len() && read_row(#[trigger] front[i], now) == Some(row);
            assert(sensors[i] == front[i]);
        }
        if exists|i: int|
            0 <= i < sensors.len() && read_row(#[trigger] sensors[i], now) == Some(row) {
            let i = choose|i: int|
                0 <= i < sensors.len() && read_row(#[trigger] sensors[i], now) == Some(row);
            if i < front.len() {
                assert(front[i] == sensors[i]);
            }
        }
    }
}

/// The rows of the sensors that the filters select.
///
/// Shared by the list, which shows them, and the download, which fetches them,
/// so both understand the filters the same way.
pub fn selected_sensors(
    sensors: &Vec<Sensor>,
    now: Timestamp,
    filters: &[SensorFilter],
) -> (rows: Vec<SensorRow>)
    ensures
        rows@ == selection(sensors@, now, filters@),
{
    let mut rows: Vec<SensorRow> = Vec::new();
    let mut i: usize = 0;
    while i < sensors.len()
        invariant
            i <= sensors@.len(),
            rows@ == selection(sensors@.take(i as int), now, filters@),
        decreases sensors@.len() - i,
    {
        let ghost seen = sensors@.take(i + 1);
        assert(seen.drop_last() == sensors@.take(i as int));
        assert(seen.last() == sensors@[i as int]);
        if let Some(row) = SensorRow::from_sensor(&sensors[i], now) {
            if row.selected_by(filters) {
                rows.push(row);
            }
        }
        i += 1;
    }
    assert(sensors@.take(i as int) == sensors@);
    rows
}

/// What to say of a sensor that is skipped, since the time it was last updated
/// cannot be read for the given reason.
pub open spec fn skipped_note(sensor: Sensor, reason: Seq<char>) -> Seq<char> {
    "skipping sensor "@ + sensor.uid@ + ": cannot parse last_updated "@ + debug_text(
        sensor.last_updated@,
    ) + " ("@ + reason + ")"@
}

/// What is said of a skipped sensor is its UID, the time that could not be read
/// as it is quoted, and the reason, in this order and between words that are
/// the same for every sensor.
pub proof fn law_a_note_names_the_sensor_and_the_reason()
    ensures
        exists|a: Seq<char>, b: Seq<char>, c: Seq<char>, d: Seq<char>|
            #![trigger a + b + c + d]
            forall|sensor: Sensor, reason: Seq<char>| #[trigger]
                skipped_note(sensor, reason) == a + sensor.uid@ + b + debug_text(
                    sensor.last_updated@,
                ) + c + reason + d,
{
    let a = "skipping sensor "@;
    let b = ": cannot parse last_updated "@;
    let c = " ("@;
    let d = ")"@;
    let words = a + b + c + d;
    assert(forall|sensor: Sensor, reason: Seq<char>| #[trigger]
        skipped_note(sensor, reason) == a + sensor.uid@ + b + debug_text(sensor.last_updated@) + c
            + reason + d);
}

/// What to say of a sensor that is skipped for the given reason.
pub fn note_skipped(sensor: &Sensor, reason: &str) -> (text: String)
    ensures
        text@ == skipped_note(*sensor, reason@),
{
    let mut text = "skipping sensor ".to_string();
    text.append(sensor.uid.as_str());
    text.append(": cannot parse last_updated ");
    let shown = quoted(sensor.last_updated.as_str());
    text.append(shown.as_str());
    text.append(" (");
    text.append(reason);
    text.append(")");
    text
}

/// What to say of the sensors that are skipped, in the order of the sensors.
pub open spec fn skipped_notes(sensors: Seq<Sensor>) -> Seq<Seq<char>>
    decreases sensors.len(),
{
    if sensors.len() == 0 {
        Seq::empty()
    } else {
        let before = skipped_notes(sensors.drop_last());
        match naive_time(sensors.last().last_updated@) {
            Ok(_) => before,
            Err(reason) => before.push(skipped_note(sensors.last(), reason)),
        }
    }
}

/// What to say of the sensors that have no row, since the time they were last
/// updated cannot be read.
pub fn skipped_sensors(sensors: &Vec<Sensor>) -> (notes: Vec<String>)
    ensures
        texts(notes@) == skipped_notes(sensors@),
{
    let mut notes: Vec<String> = Vec::new();
    let mut i: usize = 0;
    assert(texts(notes@) =~= Seq::empty());
    while i < sensors.len()
        invariant
            i <= sensors@.len(),
            texts(notes@) == skipped_notes(sensors@.take(i as int)),
        decreases sensors@.len() - i,
    {
        assert(sensors@.take(i + 1).drop_last() =~= sensors@.take(i as int));
        let ghost had = notes@;
        if let Err(reason) = read_naive(sensors[i].last_updated.as_str()) {
            let note = note_skipped(&sensors[i], reason.as_str());
            notes.push(note);
            assert(texts(notes@) =~= texts(had).push(note@));
        }
        i += 1;
    }
    assert(sensors@.take(i as int) =~= sensors@);
    notes
}

/// A sensor has a row or is spoken of as skipped: none is passed over in
/// silence.
pub proof fn law_every_sensor_has_a_row_or_a_note(sensors: Seq<Sensor>, now: Timestamp, i: int)
    requires
        0 <= i < sensors.len(),
        read_row(sensors[i], now) is None,
    ensures
        naive_time(sensors[i].last_updated@) matches Err(reason) && skipped_notes(
            sensors,
        ).contains(skipped_note(sensors[i], reason)),
    decreases sensors.len(),
{
    let front = sensors.drop_last();
    let before = skipped_notes(front);
    let notes = skipped_notes(sensors);
    let reason = naive_time(sensors[i].last_updated@)->Err_0;
    let note = skipped_note(sensors[i], reason);
    if i < front.len() {
        assert(front[i] == sensors[i]);
        law_every_sensor_has_a_row_or_a_note(front, now, i);
        let k = choose|k: int| 0 <= k < before.len() && before[k] == note;
        assert(notes[k] == note);
    } else {
        assert(notes[notes.len() - 1] == note);
    }
}

/// The sensors that have a row are not spoken of, and the others each once:
/// going through two lists one after the other says what is said of each.
pub proof fn law_notes_go_sensor_by_sensor(front: Seq<Sensor>, back: Seq<Sensor>, sensor: Sensor)
    ensures
        skipped_notes(front + back) == skipped_notes(front) + skipped_notes(back),
        skipped_notes(seq![sensor]) == (match naive_time(sensor.last_updated@) {
            Ok(_) => seq![],
            Err(reason) => seq![skipped_note(sensor, reason)],
        }),
        skipped_notes(seq![]) == Seq::<Seq<char>>::empty(),
    decreases back.len(),
{
    let all = front + back;
    assert(seq![sensor].drop_last() =~= seq![]);
    assert(skipped_notes(seq![]) =~= seq![]);
    if back.len() == 0 {
        assert(all =~= front);
        assert(back =~= seq![]);
    } else {
        assert(all.drop_last() =~= front + back.drop_last());
        law_notes_go_sensor_by_sensor(front, back.drop_last(), sensor);
    }
    assert(skipped_notes(all) =~= skipped_notes(front) + skipped_notes(back));
    let alone = skipped_notes(seq![sensor]);
    if alone.len() == 1 {
        assert(alone =~= seq![alone[0]]);
    }
}

/// Whether so many sensors came back that there may be more.
pub fn hit_request_limit(count: usize) -> (r: bool)
    ensures
        r == (count == SENSOR_LIMIT),
        r <==> count == 1000,
{
    count == SENSOR_LIMIT
}

/// The cells of a sensor in the list.
pub open spec fn sensor_cells(row: SensorRow) -> Seq<Seq<char>> {
    seq![
        icon_of(row.revision@),
        row.uid@,
        row.kind.label(),
        if row.is_online() {
            "online"@
        } else {
            "offline"@
        },
        row.software_version@,
        pretty(row.last_seen as int),
        if row.warnings == 0 {
            Seq::empty()
        } else {
            decimal(row.warnings as int)
        },
    ]
}

/// A row shows the icon, the UID, the family, whether the sensor is online, the
/// version, how long ago it was seen and the number of its warnings, which is
/// left blank where there is none.
pub proof fn law_a_row_shows_its_sensor(row: SensorRow)
    ensures
        sensor_cells(row).len() == 7,
        sensor_cells(row)[0] == icon_of(row.revision@),
        sensor_cells(row)[1] == row.uid@,
        sensor_cells(row)[2] == row.kind.label(),
        row.last_seen <= 60 * 60 * 1_000_000_000 ==> sensor_cells(row)[3] == "online"@,
        row.last_seen > 60 * 60 * 1_000_000_000 ==> sensor_cells(row)[3] == "offline"@,
        sensor_cells(row)[4] == row.software_version@,
        sensor_cells(row)[5] == pretty(row.last_seen as int),
        row.warnings == 0 ==> sensor_cells(row)[6].len() == 0,
        row.warnings > 0 ==> sensor_cells(row)[6] == decimal(row.warnings as int),
{
}

fn cells_of(row: &SensorRow) -> (cells: Vec<String>)
    ensures
        texts(cells@) == sensor_cells(*row),
{
    let mut cells: Vec<String> = Vec::new();
    cells.push(revision_icon(row.revision.as_str()).to_string());
    cells.push(row.uid.clone());
    cells.push(row.kind.to_text().to_string());
    cells.push(
        if row.online() {
            "online".to_string()
        } else {
            "offline".to_string()
        },
    );
    cells.push(row.software_version.clone());
    cells.push(PrettyDuration(row.last_seen).to_text());
    cells.push(
        if row.warnings == 0 {
            String::new()
        } else {
            digits_text(row.warnings as u128)
        },
    );
    assert(texts(cells@) =~= sensor_cells(*row));
    cells
}

/// What a command shows: a table, or a line where there is nothing to list.
#[derive(Clone, Debug, PartialEq, Eq)]
pub enum Listing {
    Nothing(&'static str),
    Table { header: Vec<&'static str>, rows: Vec<Vec<String>> },
}

/// The list of the given sensors.
pub fn present_sensors(rows: &Vec<SensorRow>) -> (r: Listing)
    ensures
        rows@.len() == 0 ==> (r matches Listing::Nothing(line) && line@
            == "no sensors match the selected filters"@),
        rows@.len() > 0 ==> (r matches Listing::Table { header, rows: cells } && header@ == seq![
            "",
            "UID",
            "TYPE",
            "STATUS",
            "VERSION",
            "LAST SEEN",
            "WARN",
        ] && cells@.len() == rows@.len() && forall|i: int|
            0 <= i < rows@.len() ==> texts((#[trigger] cells@[i])@) == sensor_cells(rows@[i])),
{
    if rows.len() == 0 {
        return Listing::Nothing("no sensors match the selected filters");
    }
    let mut cells: Vec<Vec<String>> = Vec::new();
    let mut i: usize = 0;
    while i < rows.len()
        invariant
            i <= rows@.len(),
            cells@.len() == i,
            forall|j: int|
                0 <= j < i ==> texts((#[trigger] cells@[j])@) == sensor_cells(rows@[j]),
        decreases rows@.len() - i,
    {
        cells.push(cells_of(&rows[i]));
        i += 1;
    }
    Listing::Table {
        header: vec!["", "UID", "TYPE", "STATUS", "VERSION", "LAST SEEN", "WARN"],
        rows: cells,
    }
}

} // verus!
