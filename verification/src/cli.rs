//! What a command can be asked for: filters, sort columns, data qualities and
//! actions.
use vstd::prelude::*;

use crate::stream::Transport;

verus! {

/// A selectable filter for the sensor list.
#[derive(Clone, Copy, Debug, PartialEq, Eq, Structural)]
pub enum SensorFilter {
    /// Seen within the last hour.
    Online,
    /// Not seen within the last hour.
    Offline,
    /// MEMS sensors (ADXL or BMA accelerometer).
    Mems,
    /// HiDRA sensors.
    Hidra,
    /// Sensors with an unrecognised hardware revision.
    Unknown,
    /// Sensors carrying at least one warning.
    Warnings,
}

/// The property a filter selects on.
///
/// Filters sharing a facet are OR-ed together, separate facets are AND-ed, so
/// picking two hardware families widens the list while adding a status narrows
/// it.
#[derive(Clone, Copy, Debug, PartialEq, Eq, Structural)]
pub enum Facet {
    Status,
    Family,
    Warnings,
}

/// Every facet a filter can belong to, for walking the AND-ed groups.
pub const FACETS: [Facet; 3] = [Facet::Status, Facet::Family, Facet::Warnings];

impl SensorFilter {
    /// The property this filter selects on.
    pub open spec fn spec_facet(self) -> Facet {
        match self {
            SensorFilter::Online | SensorFilter::Offline => Facet::Status,
            SensorFilter::Mems | SensorFilter::Hidra | SensorFilter::Unknown => Facet::Family,
            SensorFilter::Warnings => Facet::Warnings,
        }
    }

    /// The property this filter selects on.
    pub fn facet(self) -> (r: Facet)
        ensures
            r == self.spec_facet(),
    {
        match self {
            SensorFilter::Online | SensorFilter::Offline => Facet::Status,
            SensorFilter::Mems | SensorFilter::Hidra | SensorFilter::Unknown => Facet::Family,
            SensorFilter::Warnings => Facet::Warnings,
        }
    }
}

/// Two filters select on the same property exactly if both are on the status,
/// both on the hardware family or both on the warnings.
pub proof fn law_filters_share_a_facet_with_their_kind(one: SensorFilter, other: SensorFilter)
    ensures
        one.spec_facet() == other.spec_facet() <==> {
            ||| (one is Online || one is Offline) && (other is Online || other is Offline)
            ||| (one is Mems || one is Hidra || one is Unknown) && (other is Mems || other is Hidra
                || other is Unknown)
            ||| one is Warnings && other is Warnings
        },
        one.spec_facet() is Status <==> one is Online || one is Offline,
        one.spec_facet() is Warnings <==> one is Warnings,
{
}

/// A column the sensor list can be ordered by.
#[derive(Clone, Copy, Debug, PartialEq, Eq, Structural)]
pub enum SensorSort {
    /// Sensor UID.
    Uid,
    /// How long ago the sensor was last seen, most recent first.
    LastSeen,
    /// When the sensor was first seen, oldest first.
    FirstSeen,
    /// Software version.
    Version,
    /// Hardware family.
    Type,
    /// Number of warnings, fewest first.
    Warnings,
}

impl SensorSort {
    /// The column, spelled the way the command line accepts it.
    pub fn to_text(self) -> (text: &'static str)
        ensures
            text@ == (match self {
                SensorSort::Uid => "uid"@,
                SensorSort::LastSeen => "last-seen"@,
                SensorSort::FirstSeen => "first-seen"@,
                SensorSort::Version => "version"@,
                SensorSort::Type => "type"@,
                SensorSort::Warnings => "warnings"@,
            }),
    {
        match self {
            SensorSort::Uid => "uid",
            SensorSort::LastSeen => "last-seen",
            SensorSort::FirstSeen => "first-seen",
            SensorSort::Version => "version",
            SensorSort::Type => "type",
            SensorSort::Warnings => "warnings",
        }
    }
}

/// The SEED data quality to ask the FDSN service for.
#[derive(Clone, Copy, Debug, PartialEq, Eq, Structural)]
pub enum Quality {
    /// Indeterminate quality.
    D,
    /// Raw, as recorded.
    R,
    /// Quality controlled.
    Q,
    /// Modified, e.g. resampled.
    M,
    /// Best available, whatever the archive holds.
    B,
}

impl Quality {
    /// The code of the quality.
    pub open spec fn code(self) -> Seq<char> {
        match self {
            Quality::D => "D"@,
            Quality::R => "R"@,
            Quality::Q => "Q"@,
            Quality::M => "M"@,
            Quality::B => "B"@,
        }
    }

    /// The code of the quality.
    pub fn to_text(self) -> (text: &'static str)
        ensures
            text@ == self.code(),
    {
        match self {
            Quality::D => "D",
            Quality::R => "R",
            Quality::Q => "Q",
            Quality::M => "M",
            Quality::B => "B",
        }
    }
}

/// The code of a quality is one letter, and no two qualities share it.
pub proof fn law_quality_codes_are_letters(one: Quality, other: Quality)
    ensures
        one.code().len() == 1,
        one.code()[0] == (match one {
            Quality::D => 'D',
            Quality::R => 'R',
            Quality::Q => 'Q',
            Quality::M => 'M',
            Quality::B => 'B',
        }),
        one.code() == other.code() ==> one == other,
{
    reveal_strlit("D");
    reveal_strlit("R");
    reveal_strlit("Q");
    reveal_strlit("M");
    reveal_strlit("B");
    assert(one.code()[0] == one.code()[0] && other.code()[0] == other.code()[0]);
}

/// Something a sensor can be told to do.
#[derive(Clone, Copy, Debug, PartialEq, Eq, PartialOrd, Ord, Structural)]
pub enum ActionOptions {
    /// Reboot the sensor.
    Reboot,
    /// Blink the LED.
    Blink,
    /// Check for an update.
    CheckUpdate,
}

impl ActionOptions {
    /// The name by which the backend knows the action.
    pub fn to_text(self) -> (text: &'static str)
        ensures
            text@ == (match self {
                ActionOptions::Reboot => "RebootTrigger"@,
                ActionOptions::Blink => "LEDPagerTrigger"@,
                ActionOptions::CheckUpdate => "MenderCheckUpdate"@,
            }),
    {
        match self {
            ActionOptions::Reboot => "RebootTrigger",
            ActionOptions::Blink => "LEDPagerTrigger",
            ActionOptions::CheckUpdate => "MenderCheckUpdate",
        }
    }
}

/// The route that the flags of the live view ask for, if they ask for one. The
/// first flag wins where both are given.
pub fn chosen_transport(seedlink: bool, fdsn: bool) -> (r: Option<Transport>)
    ensures
        r == (if seedlink {
            Some(Transport::SeedLink)
        } else if fdsn {
            Some(Transport::Fdsn)
        } else {
            None
        }),
{
    if seedlink {
        Some(Transport::SeedLink)
    } else if fdsn {
        Some(Transport::Fdsn)
    } else {
        None
    }
}

} // verus!
