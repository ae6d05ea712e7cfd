//! A live view of one sensor's waveforms in the terminal.
//!
//! Records land in a ring buffer per channel as they arrive, one stacked panel
//! each. What the view shows and how it answers the keys is settled here.
use vstd::arithmetic::power2::pow2;
use vstd::prelude::*;

use crate::number::law_the_absolute_value_drops_the_sign;
use crate::number::{law_exponent_step_doubles, law_rank_is_the_order_of_numbers};
use crate::number::{Real, EXPONENT_STEP, INFINITY_BITS, SIGN_WEIGHT};
use crate::stream::{Chunk, Update};
use crate::text::{decimal, digits_text};
use crate::text_map::{law_changing_a_place_changes_its_key, TextMap};
use crate::trace::law_the_lowest_and_the_highest_of_some;
use crate::trace::{lemma_highest, lemma_lowest};
use crate::trace::{highest, infinity, lowest, negative_infinity, timed, Trace, TraceView};

verus! {

/// Milliseconds between two drawings of the view.
pub const FRAME_INTERVAL: u64 = 50;

/// Nanoseconds for which a passing notice stays on screen before the key
/// reminders take the line back.
pub const NOTICE_LINGER: u128 = 10_000_000_000;

/// The span of signal the view opens on, by its bits: 60 seconds.
pub const DEFAULT_WINDOW: u64 = 0x404e_0000_0000_0000;

/// How far the window may be squeezed, by its bits: 5 seconds.
pub const MIN_WINDOW: u64 = 0x4014_0000_0000_0000;

/// How far the window may be stretched, by its bits: 600 seconds.
pub const MAX_WINDOW: u64 = 0x4082_c000_0000_0000;

/// How many colours tell the channels apart.
pub const COLOURS: usize = 6;

/// The limits and the first width of the window are five seconds, ten minutes
/// and one minute.
pub proof fn law_windows_are_whole_seconds()
    ensures
        (Real { bits: MIN_WINDOW }).units() == 5 * pow2(1074),
        (Real { bits: MAX_WINDOW }).units() == 600 * pow2(1074),
        (Real { bits: DEFAULT_WINDOW }).units() == 60 * pow2(1074),
{
    vstd::arithmetic::power2::lemma2_to64_rest();
    lemma_units(MIN_WINDOW, 5, 50);
    lemma_units(MAX_WINDOW, 600, 43);
    lemma_units(DEFAULT_WINDOW, 60, 47);
}

proof fn lemma_units(bits: u64, seconds: int, scale: nat)
    requires
        scale <= 52,
        bits as int / (EXPONENT_STEP as int) == 1075 - scale,
        EXPONENT_STEP + bits as int % (EXPONENT_STEP as int) == seconds * pow2(scale),
        bits < SIGN_WEIGHT,
    ensures
        (Real { bits }).units() == seconds * pow2(1074),
{
    let rest = (1074 - scale) as nat;
    vstd::arithmetic::power2::lemma_pow2_adds(scale, rest);
    let p = pow2(scale) as int;
    let q = pow2(rest) as int;
    assert((seconds * p) * q == seconds * (p * q)) by (nonlinear_arith);
}

/// Which way the window is resized.
#[derive(Clone, Copy, Debug, PartialEq, Eq, Structural)]
pub enum Resize {
    /// To twice its width.
    Double,
    /// To half its width.
    Halve,
}

/// A width brought back between the limits.
pub open spec fn clamped(units: int) -> int {
    if units < (Real { bits: MIN_WINDOW }).units() {
        (Real { bits: MIN_WINDOW }).units()
    } else if units > (Real { bits: MAX_WINDOW }).units() {
        (Real { bits: MAX_WINDOW }).units()
    } else {
        units
    }
}

/// The window is within the limits.
pub open spec fn within_limits(window: Real) -> bool {
    &&& window.is_finite()
    &&& (Real { bits: MIN_WINDOW }).units() <= window.units() <= (Real {
        bits: MAX_WINDOW,
    }).units()
}

/// A window is resized to twice or half of what it was, brought back between
/// the limits; one that is no number stays as it is.
pub open spec fn is_resized(window: Real, resize: Resize, r: Real) -> bool {
    if window.is_nan() {
        r == window
    } else {
        &&& within_limits(r)
        &&& if !window.is_finite() {
            r.bits == if window.bits < SIGN_WEIGHT {
                MAX_WINDOW
            } else {
                MIN_WINDOW
            }
        } else if resize is Double {
            r.units() == clamped(2 * window.units())
        } else {
            clamped_half(window.units(), r.units())
        }
    }
}

/// The width that a window is resized to.
pub fn resized(window: Real, resize: Resize) -> (r: Real)
    ensures
        is_resized(window, resize, r),
{
    if window.nan() {
        return window;
    }
    let least = Real { bits: MIN_WINDOW };
    let most = Real { bits: MAX_WINDOW };
    match resize {
        Resize::Double => {
            let low = Real { bits: MIN_WINDOW - EXPONENT_STEP };
            let high = Real { bits: MAX_WINDOW - EXPONENT_STEP };
            proof {
                law_exponent_step_doubles(low, least);
                law_exponent_step_doubles(high, most);
                lemma_order(window, low);
                lemma_order(window, high);
                lemma_order(least, most);
            }
            if window.below(low) {
                least
            } else if high.below(window) {
                most
            } else {
                let r = Real { bits: window.bits + EXPONENT_STEP };
                proof {
                    law_exponent_step_doubles(window, r);
                }
                r
            }
        },
        Resize::Halve => {
            let low = Real { bits: MIN_WINDOW + EXPONENT_STEP };
            let high = Real { bits: MAX_WINDOW + EXPONENT_STEP };
            proof {
                law_exponent_step_doubles(least, low);
                law_exponent_step_doubles(most, high);
                lemma_order(window, low);
                lemma_order(window, high);
                lemma_order(least, most);
            }
            if window.below(low) {
                least
            } else if high.below(window) {
                most
            } else {
                let r = Real { bits: window.bits - EXPONENT_STEP };
                proof {
                    law_exponent_step_doubles(r, window);
                }
                r
            }
        },
    }
}

/// The second width is half of the first, brought back between the limits.
pub open spec fn clamped_half(window: int, half: int) -> bool {
    if window < 2 * (Real { bits: MIN_WINDOW }).units() {
        half == (Real { bits: MIN_WINDOW }).units()
    } else if window > 2 * (Real { bits: MAX_WINDOW }).units() {
        half == (Real { bits: MAX_WINDOW }).units()
    } else {
        2 * half == window
    }
}

proof fn lemma_order(a: Real, b: Real)
    requires
        b.is_finite(),
    ensures
        a.is_finite() ==> (a.less(b) <==> a.units() < b.units()),
        a.is_finite() ==> (b.less(a) <==> b.units() < a.units()),
{
    if a.is_finite() {
        law_rank_is_the_order_of_numbers(a, b);
        law_rank_is_the_order_of_numbers(b, a);
    }
}

/// A window within the limits is resized to twice or half its width; where that
/// would leave the limits, to five seconds or ten minutes.
pub proof fn law_a_window_is_doubled_or_halved(window: Real, resize: Resize, after: Real)
    requires
        window.is_finite(),
        is_resized(window, resize, after),
    ensures
        resize is Double ==> {
            &&& 2 * window.units() < 5 * pow2(1074) ==> after.units() == 5 * pow2(1074)
            &&& 2 * window.units() > 600 * pow2(1074) ==> after.units() == 600 * pow2(1074)
            &&& 5 * pow2(1074) <= 2 * window.units() <= 600 * pow2(1074) ==> after.units() == 2
                * window.units()
        },
        resize is Halve ==> {
            &&& window.units() < 10 * pow2(1074) ==> after.units() == 5 * pow2(1074)
            &&& window.units() > 1200 * pow2(1074) ==> after.units() == 600 * pow2(1074)
            &&& 10 * pow2(1074) <= window.units() <= 1200 * pow2(1074) ==> 2 * after.units()
                == window.units()
        },
{
    law_windows_are_whole_seconds();
}

/// A window without end is brought back to the limit on its side, and what is no
/// number stays as it is.
pub proof fn law_odd_windows_are_brought_back(window: Real, resize: Resize, after: Real)
    requires
        is_resized(window, resize, after),
    ensures
        window.bits == 0x7ff0_0000_0000_0000 ==> after.units() == 600 * pow2(1074),
        window.bits == 0xfff0_0000_0000_0000 ==> after.units() == 5 * pow2(1074),
        window.is_nan() ==> after == window,
        within_limits(window) <==> window.is_finite() && 5 * pow2(1074) <= window.units() <= 600
            * pow2(1074),
{
    law_windows_are_whole_seconds();
}

/// What has become of the connection.
#[derive(Clone, Debug, PartialEq, Eq)]
pub enum Status {
    Connecting,
    Live { server: String, station: String },
    Reconnecting { reason: String },
}

/// The state the view draws from.
#[derive(Debug)]
pub struct App {
    /// What to call the sensor and the route in the header.
    pub source: String,
    pub status: Status,
    /// The channels by stream, in order.
    pub traces: TextMap<Trace>,
    /// The seconds of signal that are shown.
    pub window: Real,
    /// Which panel is singled out, as an index into the sorted traces.
    pub focus: usize,
    /// Whether the focused panel has the whole area to itself.
    pub expanded: bool,
    /// Whether every channel shares one amplitude scale, for comparing them.
    pub common_scale: bool,
    pub packets: usize,
    /// Something worth saying in passing, and when it was said.
    pub notice: Option<(String, u128)>,
}

/// The windows of the channels, by stream.
pub open spec fn panels_of(traces: Map<Seq<char>, Trace>) -> Map<Seq<char>, TraceView> {
    traces.map_values(|trace: Trace| trace@)
}

/// The windows after a chunk is taken in, whose samples were recorded at the
/// given times. The first chunk of a stream opens a panel for it.
pub open spec fn taken_in(
    panels: Map<Seq<char>, TraceView>,
    chunk: Chunk,
    times: Seq<Real>,
) -> Map<Seq<char>, TraceView> {
    let panel = if panels.contains_key(chunk.stream_id@) {
        panels[chunk.stream_id@]
    } else {
        TraceView::fresh(chunk)
    };
    panels.insert(chunk.stream_id@, panel.with(chunk, times))
}

/// The newest of the times of the channels.
pub open spec fn newest_of(traces: Seq<Trace>) -> Option<Real>
    decreases traces.len(),
{
    if traces.len() == 0 {
        None
    } else {
        match (newest_of(traces.drop_last()), traces.last()@.newest()) {
            (Some(newest), Some(latest)) => Some(newest.higher(latest)),
            (None, latest) => latest,
            (newest, None) => newest,
        }
    }
}

impl App {
    /// The channels are in order, and the focus is on one of them where there
    /// is one.
    pub open spec fn well_formed(self) -> bool {
        &&& self.traces.well_formed()
        &&& self.focus == 0 || self.focus < self.traces.keys().len()
    }

    /// The windows of the channels, by stream.
    pub open spec fn panels(self) -> Map<Seq<char>, TraceView> {
        panels_of(self.traces.map())
    }

    /// All but the channels and the count of packets is as it was.
    pub open spec fn same_screen(self, before: App) -> bool {
        &&& self.source == before.source
        &&& self.window == before.window
        &&& self.focus == before.focus
        &&& self.expanded == before.expanded
        &&& self.common_scale == before.common_scale
    }

    /// A view that waits for its connection.
    pub fn new(source: String, window: Real) -> (r: Self)
        ensures
            r.well_formed(),
            r.source == source,
            r.status is Connecting,
            r.traces.keys() == Seq::<Seq<char>>::empty(),
            r.panels() == Map::<Seq<char>, TraceView>::empty(),
            r.window == window,
            r.focus == 0,
            !r.expanded,
            !r.common_scale,
            r.packets == 0,
            r.notice is None,
    {
        let r = App {
            source,
            status: Status::Connecting,
            traces: TextMap::new(),
            window,
            focus: 0,
            expanded: false,
            common_scale: false,
            packets: 0,
            notice: None,
        };
        assert(r.panels() =~= Map::<Seq<char>, TraceView>::empty());
        r
    }

    /// Take in what a transport says. The samples of a chunk were recorded at
    /// the given times, and the time of the clock says since when a notice is
    /// shown.
    pub fn apply(&mut self, update: Update, times: &Vec<Real>, now: u128)
        requires
            old(self).well_formed(),
            update matches Update::Data(chunk) ==> old(self).packets < usize::MAX
                && times@.len() == chunk.samples@.len(),
        ensures
            final(self).well_formed(),
            final(self).same_screen(*old(self)),
            match update {
                Update::Connected { server, station } => {
                    &&& final(self).status == (Status::Live { server, station })
                    &&& final(self).notice is None
                    &&& final(self).traces == old(self).traces
                    &&& final(self).packets == old(self).packets
                },
                Update::Disconnected(reason) => {
                    &&& final(self).status == (Status::Reconnecting { reason })
                    &&& final(self).notice == old(self).notice
                    &&& final(self).traces == old(self).traces
                    &&& final(self).packets == old(self).packets
                },
                Update::Notice(notice) => {
                    &&& final(self).status == old(self).status
                    &&& final(self).notice == Some((notice, now))
                    &&& final(self).traces == old(self).traces
                    &&& final(self).packets == old(self).packets
                },
                Update::Data(chunk) => {
                    &&& final(self).status == old(self).status
                    &&& final(self).notice == old(self).notice
                    &&& final(self).packets == old(self).packets + 1
                    &&& final(self).panels() == taken_in(old(self).panels(), chunk, times@)
                },
            },
    {
        match update {
            Update::Connected { server, station } => {
                self.status = Status::Live { server, station };
                self.notice = None;
            },
            Update::Disconnected(reason) => {
                self.status = Status::Reconnecting { reason };
            },
            Update::Notice(notice) => {
                self.notice = Some((notice, now));
            },
            Update::Data(chunk) => {
                self.packets = self.packets + 1;
                let ghost map = self.traces.map();
                let fresh = Trace::new(&chunk);
                let i = self.traces.ensure(chunk.stream_id.as_str(), fresh);
                let ghost ready = self.traces;
                let trace = self.traces.value_mut(i);
                trace.extend(&chunk, times);
                proof {
                    let value = self.traces.values()[i as int];
                    law_changing_a_place_changes_its_key(ready, self.traces, i as int, value);
                    assert(self.panels() =~= taken_in(panels_of(map), chunk, times@));
                }
            },
        }
    }

    /// The newest sample across every channel, which anchors the right edge of
    /// the plots. Following the data rather than the wall clock keeps the
    /// traces still even when this machine's clock disagrees with the sensor's.
    pub fn right_edge(&self) -> (r: Option<Real>)
        ensures
            r == newest_of(self.traces.values()),
    {
        let ghost traces = self.traces.values();
        let n: usize = self.traces.len();
        let mut newest: Option<Real> = None;
        let mut i: usize = 0;
        assert(traces.take(0) =~= seq![]);
        while i < n
            invariant
                i <= n == traces.len(),
                traces == self.traces.values(),
                newest == newest_of(traces.take(i as int)),
            decreases n - i,
        {
            let latest = self.traces.value(i).latest();
            newest = match (newest, latest) {
                (Some(newest), Some(latest)) => Some(newest.max(latest)),
                (None, latest) => latest,
                (newest, None) => newest,
            };
            i += 1;
            assert(traces.take(i as int).drop_last() =~= traces.take(i - 1));
        }
        assert(traces.take(i as int) =~= traces);
        newest
    }

    /// Forget what was recorded before `oldest` and has scrolled out of the
    /// window.
    pub fn trim(&mut self, oldest: Real)
        requires
            old(self).well_formed(),
        ensures
            final(self).well_formed(),
            final(self).same_screen(*old(self)),
            final(self).status == old(self).status,
            final(self).notice == old(self).notice,
            final(self).packets == old(self).packets,
            final(self).traces.keys() == old(self).traces.keys(),
            forall|i: int|
                0 <= i < old(self).traces.values().len() ==> (
                #[trigger] final(self).traces.values()[i])@
                    == old(self).traces.values()[i]@.since(oldest),
    {
        let n: usize = self.traces.len();
        let mut i: usize = 0;
        while i < n
            invariant
                i <= n == self.traces.values().len() == old(self).traces.values().len(),
                old(self).well_formed(),
                self.same_screen(*old(self)),
                self.status == old(self).status,
                self.notice == old(self).notice,
                self.packets == old(self).packets,
                self.traces.keys() == old(self).traces.keys(),
                forall|j: int|
                    0 <= j < i ==> (#[trigger] self.traces.values()[j])@
                        == old(self).traces.values()[j]@.since(oldest),
                forall|j: int|
                    i <= j < n ==> #[trigger] self.traces.values()[j]
                        == old(self).traces.values()[j],
            decreases n - i,
        {
            let trace = self.traces.value_mut(i);
            trace.trim(oldest);
            i += 1;
        }
    }

    /// Move the focus to the next channel or the one before, around the ends.
    pub fn scroll_focus(&mut self, forward: bool)
        requires
            old(self).well_formed(),
        ensures
            final(self).well_formed(),
            *final(self) == (App {
                focus: focus_after(
                    old(self).focus,
                    old(self).traces.keys().len(),
                    forward,
                ),
                ..*old(self)
            }),
    {
        let count: usize = self.traces.len();
        if count == 0 {
            return;
        }
        self.focus = if forward {
            if self.focus == count - 1 {
                0
            } else {
                self.focus + 1
            }
        } else {
            if self.focus == 0 {
                count - 1
            } else {
                self.focus - 1
            }
        };
        proof {
            lemma_wraps(old(self).focus as int, count as int);
        }
    }

    /// Stretch the window to twice its width, or squeeze it to half.
    pub fn resize_window(&mut self, resize: Resize)
        ensures
            *final(self) == (App { window: final(self).window, ..*old(self) }),
            is_resized(old(self).window, resize, final(self).window),
    {
        self.window = resized(self.window, resize);
    }
}

/// The focus that follows one, among so many channels.
pub open spec fn focus_after(focus: usize, count: nat, forward: bool) -> usize {
    if count == 0 {
        focus
    } else if forward {
        ((focus + 1) % (count as int)) as usize
    } else {
        ((focus + count - 1) % (count as int)) as usize
    }
}

proof fn lemma_wraps(focus: int, count: int)
    requires
        0 <= focus < count,
    ensures
        (focus + 1) % count == if focus == count - 1 {
            0
        } else {
            focus + 1
        },
        (focus + count - 1) % count == if focus == 0 {
            count - 1
        } else {
            focus - 1
        },
{
    vstd::arithmetic::div_mod::lemma_mod_self_0(count);
    if focus < count - 1 {
        vstd::arithmetic::div_mod::lemma_small_mod((focus + 1) as nat, count as nat);
    }
    if focus == 0 {
        vstd::arithmetic::div_mod::lemma_small_mod((count - 1) as nat, count as nat);
    } else {
        vstd::arithmetic::div_mod::lemma_mod_add_multiples_vanish(focus - 1, count);
        vstd::arithmetic::div_mod::lemma_small_mod((focus - 1) as nat, count as nat);
    }
}

/// Going forward from one channel to the next, the focus comes by every channel
/// in order; without channels it stays.
pub proof fn law_the_focus_moves_by_one(focus: usize, count: nat)
    requires
        count <= usize::MAX,
        focus < count || count == 0,
    ensures
        focus + 1 < count ==> focus_after(focus, count, true) == focus + 1,
        count > 0 && focus + 1 == count ==> focus_after(focus, count, true) == 0,
        count > 0 && focus > 0 ==> focus_after(focus, count, false) == focus - 1,
        count > 0 && focus == 0 ==> focus_after(focus, count, false) == count - 1,
        count == 0 ==> focus_after(focus, count, true) == focus && focus_after(focus, count, false)
            == focus,
{
    if count > 0 {
        lemma_wraps(focus as int, count as int);
    }
}

/// A key of the keyboard.
#[derive(Clone, Copy, Debug, PartialEq, Eq, Structural)]
pub enum Key {
    Char(char),
    Esc,
    Enter,
    Tab,
    BackTab,
    Up,
    Down,
    /// Any other key.
    Other,
}

/// What the terminal says of a key.
#[derive(Clone, Copy, Debug, PartialEq, Eq, Structural)]
pub struct KeyPress {
    pub key: Key,
    /// The control key is held.
    pub control: bool,
    /// The key went down, rather than up or repeating.
    pub pressed: bool,
}

/// What a key asks for.
#[derive(Clone, Copy, Debug, PartialEq, Eq, Structural)]
pub enum Command {
    Nothing,
    /// Close the view.
    Quit,
    Resize(Resize),
    /// Move the focus, forward or back.
    Scroll(bool),
    /// Give the focused panel the whole area, or hand it back.
    Expand,
    /// Share one amplitude scale, or stop sharing it.
    Scale,
}

/// What a key asks for.
pub open spec fn command_of(press: KeyPress) -> Command {
    if !press.pressed {
        Command::Nothing
    } else {
        match press.key {
            Key::Esc => Command::Quit,
            Key::Enter => Command::Expand,
            Key::Down | Key::Tab => Command::Scroll(true),
            Key::Up | Key::BackTab => Command::Scroll(false),
            Key::Other => Command::Nothing,
            Key::Char(c) => if c == 'q' || ((c == 'c' || c == 'd') && press.control) {
                Command::Quit
            } else if c == '+' || c == '=' {
                Command::Resize(Resize::Double)
            } else if c == '-' || c == '_' {
                Command::Resize(Resize::Halve)
            } else if c == 'j' {
                Command::Scroll(true)
            } else if c == 'k' {
                Command::Scroll(false)
            } else if c == 'f' {
                Command::Expand
            } else if c == 'a' {
                Command::Scale
            } else {
                Command::Nothing
            },
        }
    }
}

/// Which keys ask for what. A key that did not go down asks for nothing, nor
/// does any key that is not listed; the control key matters only with the two
/// letters that close the view.
pub proof fn law_what_the_keys_ask_for(press: KeyPress)
    ensures
        !press.pressed ==> command_of(press) is Nothing,
        press.pressed ==> {
            &&& command_of(press) is Quit <==> press.key is Esc || press.key == Key::Char('q') || (
            press.control && (press.key == Key::Char('c') || press.key == Key::Char('d')))
            &&& command_of(press) == Command::Resize(Resize::Double) <==> press.key == Key::Char(
                '+',
            ) || press.key == Key::Char('=')
            &&& command_of(press) == Command::Resize(Resize::Halve) <==> press.key == Key::Char('-')
                || press.key == Key::Char('_')
            &&& command_of(press) == Command::Scroll(true) <==> press.key is Down || press.key
                is Tab || press.key == Key::Char('j')
            &&& command_of(press) == Command::Scroll(false) <==> press.key is Up || press.key
                is BackTab || press.key == Key::Char('k')
            &&& command_of(press) is Expand <==> press.key is Enter || press.key == Key::Char('f')
            &&& command_of(press) is Scale <==> press.key == Key::Char('a')
        },
{
}

impl KeyPress {
    /// What the key asks for.
    pub fn command(self) -> (r: Command)
        ensures
            r == command_of(self),
    {
        if !self.pressed {
            return Command::Nothing;
        }
        match self.key {
            Key::Esc => Command::Quit,
            Key::Enter => Command::Expand,
            Key::Down | Key::Tab => Command::Scroll(true),
            Key::Up | Key::BackTab => Command::Scroll(false),
            Key::Other => Command::Nothing,
            Key::Char(c) => if c == 'q' || ((c == 'c' || c == 'd') && self.control) {
                Command::Quit
            } else if c == '+' || c == '=' {
                Command::Resize(Resize::Double)
            } else if c == '-' || c == '_' {
                Command::Resize(Resize::Halve)
            } else if c == 'j' {
                Command::Scroll(true)
            } else if c == 'k' {
                Command::Scroll(false)
            } else if c == 'f' {
                Command::Expand
            } else if c == 'a' {
                Command::Scale
            } else {
                Command::Nothing
            },
        }
    }
}

/// What a command makes of a view.
pub open spec fn obeys(before: App, command: Command, after: App) -> bool {
    match command {
        Command::Nothing | Command::Quit => after == before,
        Command::Resize(resize) => {
            &&& after == (App { window: after.window, ..before })
            &&& is_resized(before.window, resize, after.window)
        },
        Command::Scroll(forward) => after == (App {
            focus: focus_after(before.focus, before.traces.keys().len(), forward),
            ..before
        }),
        Command::Expand => after == (App { expanded: !before.expanded, ..before }),
        Command::Scale => after == (App { common_scale: !before.common_scale, ..before }),
    }
}

/// A command changes what it is about and nothing else of the view; one that
/// asks for nothing, or to close the view, changes nothing.
pub proof fn law_a_command_changes_one_thing(before: App, command: Command, after: App)
    requires
        obeys(before, command, after),
    ensures
        after.source == before.source && after.status == before.status && after.traces
            == before.traces && after.packets == before.packets && after.notice == before.notice,
        !(command is Resize) ==> after.window == before.window,
        !(command is Scroll) ==> after.focus == before.focus,
        after.expanded == (if command is Expand {
            !before.expanded
        } else {
            before.expanded
        }),
        after.common_scale == (if command is Scale {
            !before.common_scale
        } else {
            before.common_scale
        }),
        command matches Command::Resize(resize) ==> is_resized(
            before.window,
            resize,
            after.window,
        ),
        command matches Command::Scroll(forward) ==> after.focus == focus_after(
            before.focus,
            before.traces.keys().len(),
            forward,
        ),
{
}

impl App {
    /// Do what a key asks for. Returns `true` when the key asked to close the
    /// view.
    pub fn handle_key(&mut self, press: KeyPress) -> (quit: bool)
        requires
            old(self).well_formed(),
        ensures
            final(self).well_formed(),
            quit == (command_of(press) is Quit),
            obeys(*old(self), command_of(press), *final(self)),
    {
        match press.command() {
            Command::Nothing => false,
            Command::Quit => true,
            Command::Resize(resize) => {
                self.resize_window(resize);
                false
            },
            Command::Scroll(forward) => {
                self.scroll_focus(forward);
                false
            },
            Command::Expand => {
                self.expanded = !self.expanded;
                false
            },
            Command::Scale => {
                self.common_scale = !self.common_scale;
                false
            },
        }
    }
}

/// How a piece of text is drawn.
#[derive(Clone, Copy, Debug, PartialEq, Eq, Structural)]
pub enum Tone {
    Plain,
    Bold,
    /// Green: all is well.
    Good,
    /// Yellow: worth a look.
    Fair,
    /// Red: something is wrong.
    Bad,
    /// Grey: in the background.
    Faint,
}

/// A piece of text and how it is drawn.
#[derive(Clone, Debug, PartialEq, Eq)]
pub struct Segment {
    pub tone: Tone,
    pub text: String,
}

impl View for Segment {
    type V = (Tone, Seq<char>);

    open spec fn view(&self) -> (Tone, Seq<char>) {
        (self.tone, self.text@)
    }
}

/// Pieces of text by what they hold.
pub open spec fn segments(list: Seq<Segment>) -> Seq<(Tone, Seq<char>)> {
    list.map_values(|segment: Segment| segment@)
}

/// How the header says what has become of the connection.
pub open spec fn status_segments(status: Status) -> Seq<(Tone, Seq<char>)> {
    match status {
        Status::Connecting => seq![(Tone::Fair, "connecting…"@)],
        Status::Live { server, station } => seq![
            (Tone::Good, "live"@),
            (Tone::Plain, "  "@ + station@ + "  "@ + server@),
        ],
        Status::Reconnecting { .. } => seq![(Tone::Bad, "reconnecting"@)],
    }
}

/// The line along the top, given how far behind the wall clock the newest
/// sample is.
pub open spec fn header_of(
    source: Seq<char>,
    status: Status,
    packets: nat,
    behind: Option<Seq<char>>,
) -> Seq<(Tone, Seq<char>)> {
    let count = "  ·  "@ + decimal(packets as int) + " packets"@;
    let lead = seq![(Tone::Bold, source), (Tone::Plain, "  "@)] + status_segments(status) + seq![
        (Tone::Plain, count),
    ];
    match behind {
        Some(seconds) => lead + seq![(Tone::Plain, "  ·  "@ + seconds + "s behind"@)],
        None => lead,
    }
}

/// Pieces of text stand in their places with their tones.
pub proof fn law_segments_keep_their_places(list: Seq<Segment>)
    ensures
        segments(list).len() == list.len(),
        forall|i: int|
            0 <= i < list.len() ==> #[trigger] segments(list)[i] == (list[i].tone, list[i].text@),
{
}

/// The header begins with the source in bold, goes on with the state of the
/// connection, and ends with the packets and, where it is known, how far the
/// newest sample is behind.
pub proof fn law_the_header_says_how_it_is_going(
    source: Seq<char>,
    status: Status,
    packets: nat,
    behind: Option<Seq<char>>,
)
    ensures
        ({
            let line = header_of(source, status, packets, behind);
            let n = 2 + status_segments(status).len() as int;
            &&& line.len() == n + (if behind is Some {
                2int
            } else {
                1
            })
            &&& line[0] == (Tone::Bold, source)
            &&& line[1] == (Tone::Plain, "  "@)
            &&& line.subrange(2, n) == status_segments(status)
            &&& line[n] == (Tone::Plain, "  ·  "@ + decimal(packets as int) + " packets"@)
            &&& behind matches Some(seconds) ==> line[n + 1] == (
                Tone::Plain,
                "  ·  "@ + seconds + "s behind"@,
            )
        }),
        status is Connecting ==> status_segments(status) == seq![(Tone::Fair, "connecting…"@)],
        status is Reconnecting ==> status_segments(status) == seq![(Tone::Bad, "reconnecting"@)],
        status matches Status::Live { server, station } ==> status_segments(status) == seq![
            (Tone::Good, "live"@),
            (Tone::Plain, "  "@ + station@ + "  "@ + server@),
        ],
{
    let line = header_of(source, status, packets, behind);
    let n = 2 + status_segments(status).len() as int;
    assert(line.subrange(2, n) =~= status_segments(status));
}

fn piece(tone: Tone, text: &str) -> (r: Segment)
    ensures
        r@ == (tone, text@),
{
    Segment { tone, text: text.to_string() }
}

/// The line along the bottom where nothing is to be said.
pub open spec fn reminders(expanded: bool, common_scale: bool, window: Seq<char>) -> Seq<char> {
    "q quit  ↑↓ focus  ⏎ expand"@ + (if expanded {
        " (on)"@
    } else {
        ""@
    }) + "  +/- window ("@ + window + "s)  a "@ + (if common_scale {
        "shared"@
    } else {
        "per-channel"@
    }) + " scale"@
}

/// A notice is still to be shown.
pub open spec fn lingers(since: u128, now: u128) -> bool {
    now - since < NOTICE_LINGER
}

/// A notice is shown for ten seconds and no longer.
pub proof fn law_a_notice_is_shown_for_ten_seconds(since: u128, now: u128)
    ensures
        lingers(since, now) <==> now < since + 10 * 1_000_000_000,
{
}

/// The reminders give the width of the window, mark a panel that has the whole
/// area, and say whether the scale is shared; apart from these they are always
/// the same.
pub proof fn law_the_reminders_follow_the_switches()
    ensures
        exists|a: Seq<char>, b: Seq<char>, c: Seq<char>, d: Seq<char>|
            #![trigger a + b + c + d]
            forall|expanded: bool, common_scale: bool, window: Seq<char>| #[trigger]
                reminders(expanded, common_scale, window) == a + (if expanded {
                    " (on)"@
                } else {
                    ""@
                }) + b + window + c + (if common_scale {
                    "shared"@
                } else {
                    "per-channel"@
                }) + d,
{
    let a = "q quit  ↑↓ focus  ⏎ expand"@;
    let b = "  +/- window ("@;
    let c = "s)  a "@;
    let d = " scale"@;
    let words = a + b + c + d;
    assert(forall|expanded: bool, common_scale: bool, window: Seq<char>| #[trigger]
        reminders(expanded, common_scale, window) == a + (if expanded {
            " (on)"@
        } else {
            ""@
        }) + b + window + c + (if common_scale {
            "shared"@
        } else {
            "per-channel"@
        }) + d);
}

impl App {
    /// The line along the top: which sensor, which server, and how it is going.
    /// The seconds that the newest sample is behind are given in text.
    pub fn header(&self, behind: Option<&str>) -> (line: Vec<Segment>)
        ensures
            segments(line@) == header_of(
                self.source@,
                self.status,
                self.packets as nat,
                match behind {
                    Some(seconds) => Some(seconds@),
                    None => None,
                },
            ),
    {
        let mut line: Vec<Segment> = Vec::new();
        line.push(piece(Tone::Bold, self.source.as_str()));
        line.push(piece(Tone::Plain, "  "));
        match &self.status {
            Status::Connecting => line.push(piece(Tone::Fair, "connecting…")),
            Status::Live { server, station } => {
                line.push(piece(Tone::Good, "live"));
                let mut text = "  ".to_string();
                text.append(station.as_str());
                text.append("  ");
                text.append(server.as_str());
                line.push(Segment { tone: Tone::Plain, text });
            },
            Status::Reconnecting { .. } => line.push(piece(Tone::Bad, "reconnecting")),
        }
        let mut text = "  ·  ".to_string();
        let count = digits_text(self.packets as u128);
        text.append(count.as_str());
        text.append(" packets");
        line.push(Segment { tone: Tone::Plain, text });
        if let Some(seconds) = behind {
            let mut text = "  ·  ".to_string();
            text.append(seconds);
            text.append("s behind");
            line.push(Segment { tone: Tone::Plain, text });
        }
        assert(segments(line@) =~= header_of(
            self.source@,
            self.status,
            self.packets as nat,
            match behind {
                Some(seconds) => Some(seconds@),
                None => None,
            },
        ));
        line
    }

    /// The key reminders along the bottom, or whatever went wrong instead. The
    /// width of the window is given in text.
    ///
    /// A lost connection holds the line for as long as it is lost; a passing
    /// notice only for a while, so an old complaint does not outlive what it
    /// was about.
    pub fn footer(&self, window: &str, now: u128) -> (line: Segment)
        ensures
            line@ == match (self.status, self.notice) {
                (Status::Reconnecting { reason }, _) => (Tone::Bad, reason@),
                (_, Some((notice, since))) if lingers(since, now) => (Tone::Fair, notice@),
                _ => (Tone::Faint, reminders(self.expanded, self.common_scale, window@)),
            },
    {
        if let Status::Reconnecting { reason } = &self.status {
            return piece(Tone::Bad, reason.as_str());
        }
        if let Some((notice, since)) = &self.notice {
            if now < *since || now - *since < NOTICE_LINGER {
                return piece(Tone::Fair, notice.as_str());
            }
        }
        let mut text = "q quit  ↑↓ focus  ⏎ expand".to_string();
        text.append(
            if self.expanded {
                " (on)"
            } else {
                ""
            },
        );
        text.append("  +/- window (");
        text.append(window);
        text.append("s)  a ");
        text.append(
            if self.common_scale {
                "shared"
            } else {
                "per-channel"
            },
        );
        text.append(" scale");
        Segment { tone: Tone::Faint, text }
    }

    /// What to say where there is nothing to draw: with no panel in the way,
    /// there is room to say at length why the connection is lost.
    pub fn waiting(&self) -> (line: Segment)
        ensures
            line@ == match self.status {
                Status::Reconnecting { reason } => (Tone::Bad, reason@),
                Status::Connecting => (Tone::Faint, "connecting…"@),
                Status::Live { .. } => (Tone::Faint, "waiting for the first packet…"@),
            },
    {
        match &self.status {
            Status::Reconnecting { reason } => piece(Tone::Bad, reason.as_str()),
            Status::Connecting => piece(Tone::Faint, "connecting…"),
            Status::Live { .. } => piece(Tone::Faint, "waiting for the first packet…"),
        }
    }
}

/// A panel of the view.
#[derive(Clone, Copy, Debug, PartialEq, Eq, Structural)]
pub struct Panel {
    /// The channel that it shows, as an index into the sorted traces.
    pub index: usize,
    /// Which of the colours it is drawn in.
    pub colour: usize,
    /// Whether it is singled out among others.
    pub focused: bool,
    /// Whether it carries the time axis. Only the bottom panel does; the ones
    /// above share it.
    pub timed: bool,
}

/// The panels of a view with so many channels.
pub open spec fn panels_shown(count: nat, focus: usize, expanded: bool) -> Seq<Panel> {
    if count == 0 {
        seq![]
    } else if expanded {
        seq![Panel { index: focus, colour: focus % COLOURS, focused: false, timed: true }]
    } else {
        Seq::new(
            count,
            |i: int|
                Panel {
                    index: i as usize,
                    colour: (i as usize) % COLOURS,
                    focused: i == focus,
                    timed: i == count - 1,
                },
        )
    }
}

/// Every channel has a panel, in order, unless the focused one has the area to
/// itself; the bottom panel carries the time axis, the focused one is singled
/// out among the others, and the six colours are taken in turn.
pub proof fn law_every_channel_is_shown(count: nat, focus: usize, expanded: bool)
    requires
        count <= usize::MAX,
    ensures
        count == 0 ==> panels_shown(count, focus, expanded).len() == 0,
        count > 0 && expanded ==> panels_shown(count, focus, expanded).len() == 1 && panels_shown(
            count,
            focus,
            expanded,
        )[0].index == focus && panels_shown(count, focus, expanded)[0].timed && !panels_shown(
            count,
            focus,
            expanded,
        )[0].focused,
        count > 0 && !expanded ==> panels_shown(count, focus, expanded).len() == count,
        count > 0 && !expanded ==> forall|i: int|
            0 <= i < count ==> (#[trigger] panels_shown(count, focus, expanded)[i]).index == i
                && (panels_shown(count, focus, expanded)[i].timed <==> i + 1 == count) && (
            panels_shown(count, focus, expanded)[i].focused <==> i == focus),
        forall|i: int|
            0 <= i < panels_shown(count, focus, expanded).len() ==> (#[trigger] panels_shown(
                count,
                focus,
                expanded,
            )[i]).colour == panels_shown(count, focus, expanded)[i].index % 6,
{
}

impl App {
    /// The panels to draw, from top to bottom.
    pub fn shown_panels(&self) -> (r: Vec<Panel>)
        requires
            self.well_formed(),
        ensures
            r@ == panels_shown(self.traces.keys().len(), self.focus, self.expanded),
            forall|i: int|
                0 <= i < r@.len() ==> (#[trigger] r@[i]).index < self.traces.keys().len()
                    && r@[i].colour < COLOURS,
    {
        let count: usize = self.traces.len();
        let mut panels: Vec<Panel> = Vec::new();
        if count == 0 {
            return panels;
        }
        if self.expanded {
            panels.push(
                Panel {
                    index: self.focus,
                    colour: self.focus % COLOURS,
                    focused: false,
                    timed: true,
                },
            );
            assert(panels@ =~= panels_shown(count as nat, self.focus, self.expanded));
            return panels;
        }
        let ghost all = panels_shown(count as nat, self.focus, self.expanded);
        let mut i: usize = 0;
        while i < count
            invariant
                i <= count == all.len(),
                !self.expanded,
                all == panels_shown(count as nat, self.focus, self.expanded),
                panels@ == all.take(i as int),
            decreases count - i,
        {
            panels.push(
                Panel {
                    index: i,
                    colour: i % COLOURS,
                    focused: i == self.focus,
                    timed: i == count - 1,
                },
            );
            i += 1;
            assert(panels@ =~= all.take(i as int));
        }
        assert(panels@ =~= all);
        panels
    }
}

/// How many columns a panel of the given width has room for inside its border.
pub open spec fn columns_in(width: int) -> int {
    if width <= 2 {
        1
    } else {
        2 * (width - 2)
    }
}

/// Every cell between the two of the border holds two columns, and no panel has
/// fewer than one; so a wider panel never has fewer columns.
pub proof fn law_every_cell_inside_the_border_holds_two_columns(width: int)
    ensures
        columns_in(width) >= 1,
        width > 2 ==> columns_in(width) == (width - 1) + (width - 3),
        width > 2 ==> columns_in(width + 1) == columns_in(width) + 2,
        width <= 2 ==> columns_in(width) == 1,
        columns_in(width) <= columns_in(width + 1),
{
}

/// How many columns a panel of the given width has room for inside its border.
/// Braille packs two points into every column, and no panel has fewer than one.
pub fn plot_columns(width: u16) -> (columns: usize)
    ensures
        columns == (if width <= 2 {
            1
        } else {
            2 * (width - 2)
        }),
        columns == columns_in(width as int),
{
    if width <= 2 {
        1
    } else {
        2 * (width as usize - 2)
    }
}

/// The scale that spans the given ones.
pub open spec fn spanning(scales: Seq<(Real, Real)>) -> (Real, Real) {
    (
        lowest(infinity(), scales.map_values(|scale: (Real, Real)| scale.0)),
        highest(negative_infinity(), scales.map_values(|scale: (Real, Real)| scale.1)),
    )
}

/// One scale for every channel, for comparing them.
pub fn shared_scale(scales: &Vec<(Real, Real)>) -> (r: (Real, Real))
    ensures
        r == spanning(scales@),
{
    let ghost lows = scales@.map_values(|scale: (Real, Real)| scale.0);
    let ghost highs = scales@.map_values(|scale: (Real, Real)| scale.1);
    let mut low = Real { bits: INFINITY_BITS };
    let mut high = Real { bits: SIGN_WEIGHT + INFINITY_BITS };
    let mut i: usize = 0;
    while i < scales.len()
        invariant
            i <= scales@.len(),
            lows == scales@.map_values(|scale: (Real, Real)| scale.0),
            highs == scales@.map_values(|scale: (Real, Real)| scale.1),
            low == lowest(infinity(), lows.take(i as int)),
            high == highest(negative_infinity(), highs.take(i as int)),
        decreases scales@.len() - i,
    {
        low = low.min(scales[i].0);
        high = high.max(scales[i].1);
        i += 1;
        assert(lows.take(i as int).drop_last() =~= lows.take(i - 1));
        assert(highs.take(i as int).drop_last() =~= highs.take(i - 1));
    }
    assert(lows.take(i as int) =~= lows);
    assert(highs.take(i as int) =~= highs);
    (low, high)
}

/// The shared scale reaches no further than it must: each end is that of some
/// channel, or an infinity where no channel has a number there.
pub proof fn law_the_shared_scale_is_no_wider_than_it_must_be(scales: Seq<(Real, Real)>)
    ensures
        spanning(scales).0 == infinity() || exists|i: int|
            0 <= i < scales.len() && (#[trigger] scales[i]).0 == spanning(scales).0,
        spanning(scales).1 == negative_infinity() || exists|i: int|
            0 <= i < scales.len() && (#[trigger] scales[i]).1 == spanning(scales).1,
        forall|i: int|
            0 <= i < scales.len() ==> !(#[trigger] scales[i]).0.less(spanning(scales).0)
                && !spanning(scales).1.less(scales[i].1),
        !spanning(scales).0.is_nan() && !spanning(scales).1.is_nan(),
{
    let lows = scales.map_values(|scale: (Real, Real)| scale.0);
    let highs = scales.map_values(|scale: (Real, Real)| scale.1);
    law_the_lowest_and_the_highest_of_some(infinity(), lows);
    law_the_lowest_and_the_highest_of_some(negative_infinity(), highs);
    if lows.contains(spanning(scales).0) {
        let i = choose|i: int| 0 <= i < lows.len() && lows[i] == spanning(scales).0;
        assert(scales[i].0 == spanning(scales).0);
    }
    if highs.contains(spanning(scales).1) {
        let i = choose|i: int| 0 <= i < highs.len() && highs[i] == spanning(scales).1;
        assert(scales[i].1 == spanning(scales).1);
    }
    assert forall|i: int| 0 <= i < scales.len() implies !(#[trigger] scales[i]).0.less(
        spanning(scales).0,
    ) && !spanning(scales).1.less(scales[i].1) by {
        assert(lows[i] == scales[i].0 && highs[i] == scales[i].1);
    }
}

/// How far a panel reaches from zero.
pub fn reach(low: Real, high: Real) -> (r: Real)
    ensures
        r == high.absolute().higher(low.absolute()),
{
    high.abs().max(low.abs())
}

/// The bits of the number one billion.
pub const BILLION: u64 = 0x41cd_cd65_0000_0000;

/// The bits of the number one million.
pub const MILLION: u64 = 0x412e_8480_0000_0000;

/// The bits of the number one thousand.
pub const THOUSAND: u64 = 0x408f_4000_0000_0000;

/// The bits of the number one.
pub const ONE: u64 = 0x3ff0_0000_0000_0000;

/// The unit in which a number is cut down to something that fits in a title.
#[derive(Clone, Copy, Debug, PartialEq, Eq, Structural)]
pub enum Scale {
    /// Billions, with one decimal.
    Giga,
    /// Millions, with one decimal.
    Mega,
    /// Thousands, with one decimal.
    Kilo,
    /// Ones, without decimals.
    Whole,
    /// Ones, with three decimals.
    Fraction,
}

/// The unit for a number.
pub open spec fn scale_of(value: Real) -> Scale {
    let size = value.absolute();
    if size.is_nan() || size.rank() < ONE {
        Scale::Fraction
    } else if size.rank() < THOUSAND {
        Scale::Whole
    } else if size.rank() < MILLION {
        Scale::Kilo
    } else if size.rank() < BILLION {
        Scale::Mega
    } else {
        Scale::Giga
    }
}

/// The unit follows from how large a number is without its sign: from a billion
/// on, from a million, from a thousand, from one, and below.
pub proof fn law_units_follow_the_size(value: Real)
    requires
        value.is_finite(),
    ensures
        ({
            let size = if value.units() < 0 {
                -value.units()
            } else {
                value.units()
            };
            &&& scale_of(value) is Giga <==> size >= 1_000_000_000 * pow2(1074)
            &&& scale_of(value) is Mega <==> 1_000_000 * pow2(1074) <= size < 1_000_000_000 * pow2(
                1074,
            )
            &&& scale_of(value) is Kilo <==> 1_000 * pow2(1074) <= size < 1_000_000 * pow2(1074)
            &&& scale_of(value) is Whole <==> pow2(1074) <= size < 1_000 * pow2(1074)
            &&& scale_of(value) is Fraction <==> size < pow2(1074)
        }),
        Scale::Giga.mark() =~= seq!['G'],
        Scale::Mega.mark() =~= seq!['M'],
        Scale::Kilo.mark() =~= seq!['k'],
        Scale::Whole.mark().len() == 0,
        Scale::Fraction.mark().len() == 0,
{
    reveal_strlit("G");
    reveal_strlit("M");
    reveal_strlit("k");
    reveal_strlit("");
    let size = value.absolute();
    law_units_of_a_title_are_powers_of_a_thousand();
    law_the_absolute_value_drops_the_sign(value);
    law_rank_is_the_order_of_numbers(size, Real { bits: ONE });
    law_rank_is_the_order_of_numbers(size, Real { bits: THOUSAND });
    law_rank_is_the_order_of_numbers(size, Real { bits: MILLION });
    law_rank_is_the_order_of_numbers(size, Real { bits: BILLION });
}

/// An infinite number is shown in the largest unit, what is no number in the
/// smallest.
pub proof fn law_odd_numbers_have_units(value: Real)
    ensures
        value.bits == 0x7ff0_0000_0000_0000 || value.bits == 0xfff0_0000_0000_0000 ==> scale_of(
            value,
        ) is Giga,
        value.is_nan() ==> scale_of(value) is Fraction,
{
}

impl Scale {
    /// The unit for a number.
    pub fn for_value(value: Real) -> (r: Self)
        ensures
            r == scale_of(value),
    {
        let size = value.abs();
        if size.nan() || size.bits < ONE {
            Scale::Fraction
        } else if size.bits < THOUSAND {
            Scale::Whole
        } else if size.bits < MILLION {
            Scale::Kilo
        } else if size.bits < BILLION {
            Scale::Mega
        } else {
            Scale::Giga
        }
    }

    /// What stands behind the digits.
    pub open spec fn mark(self) -> Seq<char> {
        match self {
            Scale::Giga => "G"@,
            Scale::Mega => "M"@,
            Scale::Kilo => "k"@,
            Scale::Whole | Scale::Fraction => ""@,
        }
    }

    /// What stands behind the digits.
    pub fn suffix(self) -> (r: &'static str)
        ensures
            r@ == self.mark(),
    {
        match self {
            Scale::Giga => "G",
            Scale::Mega => "M",
            Scale::Kilo => "k",
            Scale::Whole | Scale::Fraction => "",
        }
    }
}

/// The title of a panel. The sample rate, and how far the panel reaches, are
/// given in digits.
pub fn trace_title(channel: &str, rate: &str, scale: Scale, size: &str) -> (text: String)
    ensures
        text@ == " "@ + channel@ + "  "@ + rate@ + " Hz  ±"@ + size@ + scale.mark() + " "@,
{
    let mut text = " ".to_string();
    text.append(channel);
    text.append("  ");
    text.append(rate);
    text.append(" Hz  ±");
    text.append(size);
    text.append(scale.suffix());
    text.append(" ");
    text
}

/// The labels of the time axis, given the width of the window in digits. The
/// plot counts time backwards from the newest sample.
pub fn time_labels(timed: bool, window: &str) -> (labels: Vec<String>)
    ensures
        timed ==> labels@.len() == 2 && labels@[0]@ == "-"@ + window@ + "s"@ && labels@[1]@
            == "now"@,
        !timed ==> labels@.len() == 0,
{
    let mut labels: Vec<String> = Vec::new();
    if timed {
        let mut text = "-".to_string();
        text.append(window);
        text.append("s");
        labels.push(text);
        labels.push("now".to_string());
    }
    labels
}

/// The units of a title begin at one, a thousand, a million and a billion.
pub proof fn law_units_of_a_title_are_powers_of_a_thousand()
    ensures
        (Real { bits: ONE }).units() == pow2(1074),
        (Real { bits: THOUSAND }).units() == 1_000 * pow2(1074),
        (Real { bits: MILLION }).units() == 1_000_000 * pow2(1074),
        (Real { bits: BILLION }).units() == 1_000_000_000 * pow2(1074),
{
    vstd::arithmetic::power2::lemma2_to64();
    vstd::arithmetic::power2::lemma2_to64_rest();
    lemma_units(ONE, 1, 52);
    lemma_units(THOUSAND, 1_000, 43);
    lemma_units(MILLION, 1_000_000, 33);
    lemma_units(BILLION, 1_000_000_000, 23);
}

/// However often and in whichever way a window is resized, it stays within the
/// limits; so it never shows more than is kept.
pub proof fn law_a_resized_window_is_within_the_limits(window: Real, resize: Resize, after: Real)
    requires
        !window.is_nan(),
        is_resized(window, resize, after),
    ensures
        within_limits(after),
        5 * pow2(1074) <= after.units() <= 600 * pow2(1074),
{
    law_windows_are_whole_seconds();
}

/// Doubling the window undoes halving it, unless the limits got in the way.
pub proof fn law_doubling_undoes_halving(window: Real, half: Real, back: Real)
    requires
        within_limits(window),
        window.units() >= 2 * (Real { bits: MIN_WINDOW }).units(),
        is_resized(window, Resize::Halve, half),
        is_resized(half, Resize::Double, back),
    ensures
        back.units() == window.units(),
        back == window,
{
    law_windows_are_whole_seconds();
    vstd::arithmetic::power2::lemma_pow2_pos(1074);
    law_rank_is_the_order_of_numbers(back, window);
    let zero = Real { bits: 0 };
    law_rank_is_the_order_of_numbers(zero, window);
    law_rank_is_the_order_of_numbers(zero, back);
}

/// The focus goes around the channels: it stays on one of them, and a step back
/// undoes a step forward, and the other way around.
pub proof fn law_the_focus_wraps_around(focus: usize, count: nat, forward: bool)
    requires
        focus < count <= usize::MAX,
    ensures
        focus_after(focus, count, forward) < count,
        focus_after(focus_after(focus, count, forward), count, !forward) == focus,
        focus == count - 1 ==> focus_after(focus, count, true) == 0,
        focus == 0 ==> focus_after(focus, count, false) == count - 1,
{
    lemma_wraps(focus as int, count as int);
    lemma_wraps(focus_after(focus, count, forward) as int, count as int);
}

/// Giving a panel the whole area twice, or sharing the scale twice, leaves the
/// view as it was.
pub proof fn law_a_switch_thrown_twice_changes_nothing(
    before: App,
    between: App,
    after: App,
    command: Command,
)
    requires
        command is Expand || command is Scale,
        obeys(before, command, between),
        obeys(between, command, after),
    ensures
        after == before,
{
}

/// Each stream has a panel of its own: a chunk adds its samples to the panel of
/// its stream and leaves every other panel alone.
pub proof fn law_each_stream_has_its_own_panel(
    panels: Map<Seq<char>, TraceView>,
    chunk: Chunk,
    times: Seq<Real>,
    stream: Seq<char>,
)
    ensures
        taken_in(panels, chunk, times).contains_key(stream) <==> stream == chunk.stream_id@
            || panels.contains_key(stream),
        stream != chunk.stream_id@ && panels.contains_key(stream) ==> taken_in(
            panels,
            chunk,
            times,
        )[stream] == panels[stream],
        stream == chunk.stream_id@ ==> taken_in(panels, chunk, times)[stream].points == (
        if panels.contains_key(stream) {
            panels[stream].points
        } else {
            seq![]
        }) + timed(times, chunk.samples@),
{
}

/// The first chunk of a stream opens a panel under the name and at the rate of
/// its channel; a later one keeps the name of the panel, and takes its rate
/// over where it is above zero. Every panel keeps what was last drawn of it.
pub proof fn law_a_chunk_opens_or_extends_a_panel(
    panels: Map<Seq<char>, TraceView>,
    chunk: Chunk,
    times: Seq<Real>,
)
    requires
        times.len() == chunk.samples@.len(),
    ensures
        ({
            let stream = chunk.stream_id@;
            let panel = taken_in(panels, chunk, times)[stream];
            let held = if panels.contains_key(stream) {
                panels[stream].points
            } else {
                seq![]
            };
            let positive = 0 < chunk.sample_rate.bits <= 0x7ff0_0000_0000_0000;
            &&& panel.points.len() == held.len() + times.len()
            &&& forall|i: int| 0 <= i < held.len() ==> #[trigger] panel.points[i] == held[i]
            &&& forall|i: int|
                0 <= i < times.len() ==> panel.points[held.len() + i] == (
                    #[trigger] times[i],
                    chunk.samples@[i],
                )
            &&& !panels.contains_key(stream) ==> panel.channel == chunk.channel@
                && panel.sample_rate == chunk.sample_rate && panel.plotted.len() == 0
            &&& panels.contains_key(stream) ==> panel.channel == panels[stream].channel
                && panel.plotted == panels[stream].plotted && panel.sample_rate == (if positive {
                chunk.sample_rate
            } else {
                panels[stream].sample_rate
            })
        }),
{
}

/// The panels are seen by what the channels hold, stream by stream.
pub proof fn law_panels_are_what_the_channels_hold(
    traces: Map<Seq<char>, Trace>,
    stream: Seq<char>,
)
    ensures
        panels_of(traces).contains_key(stream) <==> traces.contains_key(stream),
        traces.contains_key(stream) ==> panels_of(traces)[stream] == traces[stream]@,
{
}

/// There is no right edge only where no channel holds a sample.
pub proof fn law_there_is_a_right_edge_once_there_is_a_sample(traces: Seq<Trace>)
    ensures
        newest_of(traces) is None <==> forall|i: int|
            0 <= i < traces.len() ==> (#[trigger] traces[i])@.points.len() == 0,
    decreases traces.len(),
{
    if traces.len() > 0 {
        let front = traces.drop_last();
        law_there_is_a_right_edge_once_there_is_a_sample(front);
        assert(traces[traces.len() - 1] == traces.last());
        assert forall|i: int| 0 <= i < front.len() implies front[i] == #[trigger] traces[i] by {}
        if newest_of(traces) is None {
            assert forall|i: int| 0 <= i < traces.len() implies (
            #[trigger] traces[i])@.points.len() == 0 by {
                if i < front.len() {
                    assert(front[i] == traces[i]);
                }
            }
        }
        if forall|i: int| 0 <= i < traces.len() ==> (#[trigger] traces[i])@.points.len() == 0 {
            assert forall|i: int| 0 <= i < front.len() implies (
            #[trigger] front[i])@.points.len() == 0 by {
                assert(front[i] == traces[i]);
            }
        }
    }
}

/// The view keeps the state it is in: its channels stay in order and the focus
/// on one of them; what is left alone of the screen is the source, the window,
/// the focus and the two switches.
pub proof fn law_what_a_view_keeps(view: App, before: App)
    ensures
        view.well_formed() ==> view.focus == 0 || view.focus < view.traces.keys().len(),
        view.well_formed() ==> view.traces.well_formed(),
        view.same_screen(before) <==> view.source == before.source && view.window == before.window
            && view.focus == before.focus && view.expanded == before.expanded && view.common_scale
            == before.common_scale,
{
}

/// The right edge is the newest sample of some channel, and no channel's newest
/// sample lies beyond it.
pub proof fn law_the_right_edge_is_the_newest_sample(traces: Seq<Trace>, i: int)
    requires
        0 <= i < traces.len(),
        traces[i]@.newest() matches Some(latest) && !latest.is_nan(),
    ensures
        newest_of(traces) matches Some(edge) && !edge.is_nan() && traces[i]@.newest()->0.rank()
            <= edge.rank(),
        exists|j: int|
            0 <= j < traces.len() && (#[trigger] traces[j])@.newest() == newest_of(traces),
    decreases traces.len(),
{
    let front = traces.drop_last();
    let n = front.len() as int;
    if i < n {
        assert(front[i] == traces[i]);
        law_the_right_edge_is_the_newest_sample(front, i);
        let j = choose|j: int|
            0 <= j < front.len() && (#[trigger] front[j])@.newest() == newest_of(front);
        assert(traces[j]@.newest() == newest_of(front));
    } else {
        lemma_newest_of(front);
        if let Some(edge) = newest_of(front) {
            let j = choose|j: int|
                0 <= j < front.len() && (#[trigger] front[j])@.newest() == newest_of(front);
            assert(traces[j]@.newest() == newest_of(front));
        }
    }
    assert(traces[n] == traces.last());
}

proof fn lemma_newest_of(traces: Seq<Trace>)
    ensures
        newest_of(traces) is Some ==> exists|j: int|
            0 <= j < traces.len() && (#[trigger] traces[j])@.newest() == newest_of(traces),
    decreases traces.len(),
{
    if traces.len() > 0 {
        let front = traces.drop_last();
        lemma_newest_of(front);
        if newest_of(front) is Some {
            let j = choose|j: int|
                0 <= j < front.len() && (#[trigger] front[j])@.newest() == newest_of(front);
            assert(traces[j]@.newest() == newest_of(front));
        }
        assert(traces[traces.len() - 1] == traces.last());
    }
}

/// The scale that the channels share spans the scale of every one of them.
pub proof fn law_one_scale_spans_every_channel(scales: Seq<(Real, Real)>, i: int)
    requires
        0 <= i < scales.len(),
    ensures
        !scales[i].0.is_nan() ==> spanning(scales).0.rank() <= scales[i].0.rank(),
        !scales[i].1.is_nan() ==> scales[i].1.rank() <= spanning(scales).1.rank(),
{
    let lows = scales.map_values(|scale: (Real, Real)| scale.0);
    let highs = scales.map_values(|scale: (Real, Real)| scale.1);
    lemma_lowest(infinity(), lows);
    lemma_highest(negative_infinity(), highs);
    assert(lows[i] == scales[i].0);
    assert(highs[i] == scales[i].1);
}

} // verus!
