//! One channel's rolling window of samples, and how it is thinned for a panel.
use std::collections::VecDeque;
use vstd::prelude::*;

use crate::number::{Real, INFINITY_BITS, SIGN_WEIGHT};
use crate::stream::Chunk;

verus! {

/// One channel's rolling window of samples.
#[derive(Debug)]
pub struct Trace {
    pub channel: String,
    pub sample_rate: Real,
    /// Samples as (seconds since the epoch, value), oldest first.
    pub points: VecDeque<(Real, Real)>,
    /// Redrawn points, kept between frames.
    pub plotted: Vec<(Real, Real)>,
}

/// A rolling window by the texts and numbers it holds.
pub struct TraceView {
    pub channel: Seq<char>,
    pub sample_rate: Real,
    pub points: Seq<(Real, Real)>,
    pub plotted: Seq<(Real, Real)>,
}

impl View for Trace {
    type V = TraceView;

    open spec fn view(&self) -> TraceView {
        TraceView {
            channel: self.channel@,
            sample_rate: self.sample_rate,
            points: self.points@,
            plotted: self.plotted@,
        }
    }
}

impl TraceView {
    /// The window of the channel of a chunk, without samples.
    pub open spec fn fresh(chunk: Chunk) -> TraceView {
        TraceView {
            channel: chunk.channel@,
            sample_rate: chunk.sample_rate,
            points: seq![],
            plotted: seq![],
        }
    }

    /// The window with the samples of a chunk, recorded at the given times. A
    /// rate that is not above zero says nothing and changes nothing.
    pub open spec fn with(self, chunk: Chunk, times: Seq<Real>) -> TraceView {
        TraceView {
            sample_rate: if !chunk.sample_rate.is_nan() && chunk.sample_rate.rank() > 0 {
                chunk.sample_rate
            } else {
                self.sample_rate
            },
            points: self.points + timed(times, chunk.samples@),
            ..self
        }
    }

    /// The window without the samples at its front recorded before `oldest`.
    pub open spec fn since(self, oldest: Real) -> TraceView {
        TraceView { points: self.points.skip(count_before(self.points, oldest) as int), ..self }
    }

    /// The time of the newest sample held.
    pub open spec fn newest(self) -> Option<Real> {
        if self.points.len() == 0 {
            None
        } else {
            Some(self.points.last().0)
        }
    }
}

/// Samples with the times they were recorded at.
pub open spec fn timed(times: Seq<Real>, values: Seq<Real>) -> Seq<(Real, Real)> {
    Seq::new(values.len(), |i: int| (times[i], values[i]))
}

/// How many samples at the front were recorded before a time.
pub open spec fn count_before(points: Seq<(Real, Real)>, oldest: Real) -> nat
    decreases points.len(),
{
    if points.len() > 0 && points[0].0.less(oldest) {
        1 + count_before(points.skip(1), oldest)
    } else {
        0
    }
}

/// No sample was recorded before one that stands in front of it.
pub open spec fn in_time_order(points: Seq<(Real, Real)>) -> bool {
    forall|i: int, j: int|
        0 <= i < j < points.len() ==> !(#[trigger] points[j]).0.less((#[trigger] points[i]).0)
}

/// The samples are split at a place: what stands before it was recorded before
/// a time, and what stands behind it was not.
pub open spec fn split_by_time(points: Seq<(Real, Real)>, at: int, time: Real) -> bool {
    &&& 0 <= at <= points.len()
    &&& forall|i: int| 0 <= i < at ==> (#[trigger] points[i]).0.less(time)
    &&& forall|i: int| at <= i < points.len() ==> !(#[trigger] points[i]).0.less(time)
}

/// A window is seen by what it holds, a fresh one holds nothing yet, and the
/// newest sample is the last one taken in.
pub proof fn law_a_window_is_what_it_holds(trace: Trace, chunk: Chunk, window: TraceView)
    ensures
        trace@.channel == trace.channel@ && trace@.sample_rate == trace.sample_rate
            && trace@.points == trace.points@ && trace@.plotted == trace.plotted@,
        TraceView::fresh(chunk).channel == chunk.channel@,
        TraceView::fresh(chunk).sample_rate == chunk.sample_rate,
        TraceView::fresh(chunk).points.len() == 0 && TraceView::fresh(chunk).plotted.len() == 0,
        window.newest() is None <==> window.points.len() == 0,
        window.points.len() > 0 ==> window.newest() == Some(
            window.points[window.points.len() - 1].0,
        ),
{
}

/// Taking in a chunk keeps every sample held and puts those of the chunk behind
/// them, each with its time; a rate above zero takes the place of the one held,
/// and any other does not.
pub proof fn law_a_chunk_goes_to_the_end(window: TraceView, chunk: Chunk, times: Seq<Real>)
    requires
        times.len() == chunk.samples@.len(),
    ensures
        window.with(chunk, times).points.len() == window.points.len() + times.len(),
        forall|i: int|
            0 <= i < window.points.len() ==> #[trigger] window.with(chunk, times).points[i]
                == window.points[i],
        forall|i: int|
            0 <= i < times.len() ==> window.with(chunk, times).points[window.points.len() + i] == (
                #[trigger] times[i],
                chunk.samples@[i],
            ),
        window.with(chunk, times).channel == window.channel,
        window.with(chunk, times).plotted == window.plotted,
        0 < chunk.sample_rate.bits <= 0x7ff0_0000_0000_0000 ==> window.with(
            chunk,
            times,
        ).sample_rate == chunk.sample_rate,
        !(0 < chunk.sample_rate.bits <= 0x7ff0_0000_0000_0000) ==> window.with(
            chunk,
            times,
        ).sample_rate == window.sample_rate,
{
}

/// Trimming drops samples from the front only: every one that goes was recorded
/// before the oldest time to keep, and the first one that stays was not.
/// Nothing else of the window changes.
pub proof fn law_trimming_takes_from_the_front(window: TraceView, oldest: Real)
    ensures
        window.since(oldest).channel == window.channel,
        window.since(oldest).sample_rate == window.sample_rate,
        window.since(oldest).plotted == window.plotted,
        exists|gone: int|
            #![trigger window.points.skip(gone)]
            0 <= gone <= window.points.len() && window.since(oldest).points == window.points.skip(
                gone,
            ) && (forall|i: int| 0 <= i < gone ==> (#[trigger] window.points[i]).0.less(oldest))
                && (gone < window.points.len() ==> !window.points[gone].0.less(oldest)),
{
    law_only_old_samples_are_trimmed(window.points, oldest);
    let gone = count_before(window.points, oldest) as int;
    assert(window.since(oldest).points == window.points.skip(gone));
}

/// The lowest of some values, starting from a given one.
pub open spec fn lowest(from: Real, values: Seq<Real>) -> Real
    decreases values.len(),
{
    if values.len() == 0 {
        from
    } else {
        lowest(from, values.drop_last()).lower(values.last())
    }
}

/// The highest of some values, starting from a given one.
pub open spec fn highest(from: Real, values: Seq<Real>) -> Real
    decreases values.len(),
{
    if values.len() == 0 {
        from
    } else {
        highest(from, values.drop_last()).higher(values.last())
    }
}

/// The column of a panel that a sample falls in; what lies past the last column
/// belongs to it.
pub open spec fn column_of(bucket: usize, columns: nat) -> int {
    if bucket < columns {
        bucket as int
    } else {
        columns - 1
    }
}

/// The columns of the samples that fall in a panel.
pub open spec fn columns_of(buckets: Seq<usize>, columns: nat) -> Seq<int> {
    buckets.map_values(|bucket: usize| column_of(bucket, columns))
}

/// Where the samples that fall in the same column as the last one begin.
pub open spec fn last_run(columns: Seq<int>) -> int
    decreases columns.len(),
{
    if columns.len() <= 1 {
        0
    } else if columns[columns.len() - 2] == columns.last() {
        last_run(columns.drop_last())
    } else {
        columns.len() - 1
    }
}

/// What is drawn of a column: its lowest sample, and its highest where that is
/// another.
pub open spec fn drawn(at: Real, low: Real, high: Real) -> Seq<(Real, Real)> {
    if high.equals(low) {
        seq![(at, low)]
    } else {
        seq![(at, low), (at, high)]
    }
}

/// A sample falls in the column of its bucket, and in the last column where the
/// panel has no such column.
pub proof fn law_a_sample_falls_in_the_column_of_its_bucket(buckets: Seq<usize>, columns: nat)
    ensures
        columns_of(buckets, columns).len() == buckets.len(),
        forall|i: int|
            0 <= i < buckets.len() && buckets[i] < columns ==> #[trigger] columns_of(
                buckets,
                columns,
            )[i] == buckets[i],
        forall|i: int|
            0 <= i < buckets.len() && buckets[i] >= columns ==> #[trigger] columns_of(
                buckets,
                columns,
            )[i] == columns - 1,
{
}

/// What is drawn of samples that fall in the given columns: of each run of
/// samples in one column, the lowest and the highest.
pub open spec fn thinned(columns: Seq<int>, values: Seq<Real>, centres: Seq<Real>) -> Seq<
    (Real, Real),
>
    decreases columns.len(),
    via thinned_ends
{
    if columns.len() == 0 {
        seq![]
    } else {
        let s = last_run(columns);
        thinned(columns.take(s), values.take(s), centres) + drawn(
            centres[columns.last()],
            lowest(values[s], values.subrange(s + 1, columns.len() as int)),
            highest(values[s], values.subrange(s + 1, columns.len() as int)),
        )
    }
}

#[via_fn]
proof fn thinned_ends(columns: Seq<int>, values: Seq<Real>, centres: Seq<Real>) {
    lemma_last_run(columns);
}

/// The last run is as long as it can be.
proof fn lemma_last_run(columns: Seq<int>)
    ensures
        columns.len() > 0 ==> 0 <= last_run(columns) < columns.len(),
        forall|i: int|
            last_run(columns) <= i < columns.len() ==> #[trigger] columns[i] == columns.last(),
        last_run(columns) > 0 ==> columns[last_run(columns) - 1] != columns.last(),
    decreases columns.len(),
{
    if columns.len() > 1 && columns[columns.len() - 2] == columns.last() {
        let front = columns.drop_last();
        lemma_last_run(front);
        assert forall|i: int| last_run(columns) <= i < columns.len() implies #[trigger] columns[i]
            == columns.last() by {
            if i < columns.len() - 1 {
                assert(front[i] == columns[i]);
            }
        }
    }
}

/// The values of samples.
pub open spec fn values_of(points: Seq<(Real, Real)>) -> Seq<Real> {
    points.map_values(|point: (Real, Real)| point.1)
}

/// The values of samples stand in the places of the samples.
pub proof fn law_values_keep_their_places(points: Seq<(Real, Real)>, times: Seq<Real>)
    ensures
        values_of(points).len() == points.len(),
        forall|i: int| 0 <= i < points.len() ==> #[trigger] values_of(points)[i] == points[i].1,
        times.len() == points.len() ==> values_of(timed(times, values_of(points))) == values_of(
            points,
        ),
{
    assert(values_of(timed(times, values_of(points))) =~= values_of(points));
}

/// Positive infinity.
pub open spec fn infinity() -> Real {
    Real { bits: INFINITY_BITS }
}

/// Negative infinity.
pub open spec fn negative_infinity() -> Real {
    Real { bits: (SIGN_WEIGHT + INFINITY_BITS) as u64 }
}

/// The lowest and the highest of some values, if there are any and both are
/// finite.
pub open spec fn extent_of(values: Seq<Real>) -> Option<(Real, Real)> {
    let low = lowest(infinity(), values);
    let high = highest(negative_infinity(), values);
    if low.is_finite() && high.is_finite() {
        Some((low, high))
    } else {
        None
    }
}

impl Trace {
    /// The window of the channel of a chunk, without samples.
    pub fn new(chunk: &Chunk) -> (r: Self)
        ensures
            r@ == TraceView::fresh(*chunk),
    {
        Trace {
            channel: chunk.channel.clone(),
            sample_rate: chunk.sample_rate,
            points: VecDeque::new(),
            plotted: Vec::new(),
        }
    }

    /// The time of the newest sample held.
    pub fn latest(&self) -> (r: Option<Real>)
        ensures
            r == self@.newest(),
    {
        let n: usize = self.points.len();
        if n == 0 {
            None
        } else {
            Some(self.points[n - 1].0)
        }
    }

    /// Take in the samples of a chunk, recorded at the given times. A rate that
    /// is not above zero says nothing and changes nothing.
    pub fn extend(&mut self, chunk: &Chunk, times: &Vec<Real>)
        requires
            times@.len() == chunk.samples@.len(),
        ensures
            final(self)@ == old(self)@.with(*chunk, times@),
    {
        if chunk.sample_rate.positive() {
            self.sample_rate = chunk.sample_rate;
        }
        let ghost held = self.points@;
        let ghost samples = timed(times@, chunk.samples@);
        let ghost rate = self.sample_rate;
        let mut i: usize = 0;
        assert(held + samples.take(0) =~= held);
        while i < times.len()
            invariant
                i <= times@.len() == chunk.samples@.len(),
                samples == timed(times@, chunk.samples@),
                self.points@ == held + samples.take(i as int),
                self.channel == old(self).channel,
                self.plotted == old(self).plotted,
                self.sample_rate == rate,
            decreases times@.len() - i,
        {
            self.points.push_back((times[i], chunk.samples[i]));
            i += 1;
            assert(self.points@ =~= held + samples.take(i as int));
        }
        assert(samples.take(i as int) =~= samples);
    }

    /// Drop everything at the front recorded before `oldest`.
    pub fn trim(&mut self, oldest: Real)
        ensures
            final(self)@ == old(self)@.since(oldest),
    {
        let ghost all = self.points@;
        assert(all.skip(0) =~= all);
        let ghost mut gone: nat = 0;
        while self.points.len() > 0 && self.points[0].0.below(oldest)
            invariant
                gone <= all.len(),
                self.points@ == all.skip(gone as int),
                count_before(all, oldest) == gone + count_before(self.points@, oldest),
                self.channel == old(self).channel,
                self.sample_rate == old(self).sample_rate,
                self.plotted == old(self).plotted,
            decreases self.points@.len(),
        {
            let _ = self.points.pop_front();
            proof {
                assert(self.points@ =~= all.skip(gone as int).skip(1));
                gone = gone + 1;
                assert(self.points@ =~= all.skip(gone as int));
            }
        }
    }

    /// The place of the first sample inside a window that begins at the left
    /// edge. The buffer holds far more than the window shows, and it is in time
    /// order, so the visible tail is found rather than filtered for.
    pub fn visible_from(&self, left_edge: Real) -> (first: usize)
        ensures
            first <= self.points@.len(),
            first > 0 ==> self.points@[first - 1].0.less(left_edge),
            first < self.points@.len() ==> !self.points@[first as int].0.less(left_edge),
            forall|at: int|
                split_by_time(self.points@, at, left_edge) ==> first == at,
    {
        let n: usize = self.points.len();
        let mut from: usize = 0;
        let mut to: usize = n;
        while from < to
            invariant
                n == self.points@.len(),
                from <= to <= n,
                from > 0 ==> self.points@[from - 1].0.less(left_edge),
                to < n ==> !self.points@[to as int].0.less(left_edge),
            decreases to - from,
        {
            let middle: usize = from + (to - from) / 2;
            if self.points[middle].0.below(left_edge) {
                from = middle + 1;
            } else {
                to = middle;
            }
        }
        from
    }

    /// The samples inside the window, thinned to what the panel can show.
    ///
    /// Each column of the panel keeps the highest and lowest sample that falls
    /// in it, which is what makes a seismogram look like one: the envelope of
    /// the signal rather than whichever sample a naive stride happened to land
    /// on. The samples from `first` on fall in the given columns, and `centres`
    /// says where each column of the panel lies.
    pub fn plot(&mut self, first: usize, buckets: &Vec<usize>, centres: &Vec<Real>)
        requires
            first <= old(self).points@.len(),
            buckets@.len() == old(self).points@.len() - first,
            centres@.len() > 0,
        ensures
            final(self).channel == old(self).channel,
            final(self).sample_rate == old(self).sample_rate,
            final(self).points == old(self).points,
            final(self).plotted@ == thinned(
                columns_of(buckets@, centres@.len()),
                values_of(old(self).points@.skip(first as int)),
                centres@,
            ),
            forall|j: int|
                0 <= j < final(self).plotted@.len() ==> exists|i: int|
                    0 <= i < buckets@.len() && #[trigger] final(self).plotted@[j] == (
                        if (#[trigger] buckets@[i]) < centres@.len() {
                            centres@[buckets@[i] as int]
                        } else {
                            centres@[centres@.len() - 1]
                        },
                        old(self).points@[first + i].1,
                    ),
    {
        let ghost columns = columns_of(buckets@, centres@.len());
        let ghost values = values_of(self.points@.skip(first as int));
        let count: usize = centres.len();
        let n: usize = buckets.len();
        let end: usize = self.points.len();
        let mut plotted: Vec<(Real, Real)> = Vec::new();
        let mut bucket: usize = 0;
        let mut extremes: Option<(Real, Real)> = None;
        let mut i: usize = 0;
        let ghost mut s: int = 0;
        assert(columns.take(0) =~= seq![]);
        while i < n
            invariant
                i <= n == buckets@.len() == columns.len() == values.len(),
                n == end - first,
                end == self.points@.len(),
                first <= end,
                count == centres@.len() > 0,
                *self == *old(self),
                columns == columns_of(buckets@, centres@.len()),
                values == values_of(self.points@.skip(first as int)),
                run_state(columns, values, centres@, plotted@, bucket, extremes, i as int, s),
            decreases n - i,
        {
            let value = self.points[first + i].1;
            let index: usize = if buckets[i] < count {
                buckets[i]
            } else {
                count - 1
            };
            assert(index == columns[i as int]);
            assert(value == values[i as int]);
            if index != bucket {
                flush(bucket, extremes, centres, &mut plotted);
                bucket = index;
                extremes = None;
                proof {
                    if i > 0 {
                        lemma_run_closed(columns, values, centres@, i as int, s);
                    }
                    s = i as int;
                }
            }
            let ghost held = extremes;
            extremes = Some(
                match extremes {
                    None => (value, value),
                    Some((low, high)) => (low.min(value), high.max(value)),
                },
            );
            i += 1;
            proof {
                if held is Some {
                    let seen = values.subrange(s + 1, i as int);
                    assert(seen.drop_last() =~= values.subrange(s + 1, i - 1));
                } else {
                    s = i - 1;
                    assert(values.subrange(s + 1, i as int) =~= seq![]);
                }
            }
        }
        flush(bucket, extremes, centres, &mut plotted);
        proof {
            assert(columns.take(n as int) =~= columns);
            assert(values.take(n as int) =~= values);
            if n > 0 {
                lemma_run_closed(columns, values, centres@, n as int, s);
            }
            assert forall|j: int| 0 <= j < plotted@.len() implies exists|i: int|
                0 <= i < buckets@.len() && #[trigger] plotted@[j] == (
                    if (#[trigger] buckets@[i]) < centres@.len() {
                        centres@[buckets@[i] as int]
                    } else {
                        centres@[centres@.len() - 1]
                    },
                    self.points@[first + i].1,
                ) by {
                law_points_are_drawn_where_the_samples_fall(buckets@, values, centres@, j);
                let i = choose|i: int|
                    0 <= i < buckets@.len() && plotted@[j] == (
                        if (#[trigger] buckets@[i]) < centres@.len() {
                            centres@[buckets@[i] as int]
                        } else {
                            centres@[centres@.len() - 1]
                        },
                        values[i],
                    );
                assert(values[i] == self.points@[first + i].1);
            }
        }
        self.plotted = plotted;
    }

    /// The lowest and the highest of the plotted values.
    pub fn extent(&self) -> (r: Option<(Real, Real)>)
        ensures
            r == extent_of(values_of(self.plotted@)),
    {
        let ghost values = values_of(self.plotted@);
        let mut low = Real { bits: INFINITY_BITS };
        let mut high = Real { bits: SIGN_WEIGHT + INFINITY_BITS };
        let mut i: usize = 0;
        while i < self.plotted.len()
            invariant
                i <= self.plotted@.len() == values.len(),
                values == values_of(self.plotted@),
                low == lowest(infinity(), values.take(i as int)),
                high == highest(negative_infinity(), values.take(i as int)),
            decreases self.plotted@.len() - i,
        {
            let value = self.plotted[i].1;
            low = low.min(value);
            high = high.max(value);
            i += 1;
            assert(values.take(i as int).drop_last() =~= values.take(i - 1));
        }
        assert(values.take(i as int) =~= values);
        if low.finite() && high.finite() {
            Some((low, high))
        } else {
            None
        }
    }
}

/// What has been drawn of the first samples, and what is held of the column
/// that the last of them fell in, which began at a place.
spec fn run_state(
    columns: Seq<int>,
    values: Seq<Real>,
    centres: Seq<Real>,
    plotted: Seq<(Real, Real)>,
    bucket: usize,
    extremes: Option<(Real, Real)>,
    i: int,
    s: int,
) -> bool {
    &&& bucket < centres.len()
    &&& if i == 0 {
        extremes is None && bucket == 0 && plotted == Seq::<(Real, Real)>::empty()
    } else {
        &&& 0 <= s < i
        &&& s > 0 ==> columns[s - 1] != columns[s]
        &&& forall|j: int| s <= j < i ==> #[trigger] columns[j] == bucket
        &&& plotted == thinned(columns.take(s), values.take(s), centres)
        &&& extremes == Some(
            (
                lowest(values[s], values.subrange(s + 1, i)),
                highest(values[s], values.subrange(s + 1, i)),
            ),
        )
    }
}

/// The last run of the first samples begins where their column was entered.
proof fn lemma_run_closed(
    columns: Seq<int>,
    values: Seq<Real>,
    centres: Seq<Real>,
    i: int,
    s: int,
)
    requires
        0 <= s < i <= columns.len(),
        columns.len() == values.len(),
        s > 0 ==> columns[s - 1] != columns[s],
        forall|j: int| s <= j < i ==> #[trigger] columns[j] == columns[s],
    ensures
        thinned(columns.take(i), values.take(i), centres) == thinned(
            columns.take(s),
            values.take(s),
            centres,
        ) + drawn(
            centres[columns[s]],
            lowest(values[s], values.subrange(s + 1, i)),
            highest(values[s], values.subrange(s + 1, i)),
        ),
{
    let seen = columns.take(i);
    lemma_last_run(seen);
    assert(seen.last() == columns[s]);
    let r = last_run(seen);
    assert(r == s) by {
        if r < s {
            assert(seen[s - 1] == seen.last());
        } else if r > s {
            assert(seen[r - 1] == columns[s]);
        }
    }
    assert(seen.take(s) =~= columns.take(s));
    assert(values.take(i).take(s) =~= values.take(s));
    assert(values.take(i).subrange(s + 1, i) =~= values.subrange(s + 1, i));
}

/// Emits the low and the high of a column in the order they keep the line
/// moving forward.
fn flush(
    bucket: usize,
    extremes: Option<(Real, Real)>,
    centres: &Vec<Real>,
    plotted: &mut Vec<(Real, Real)>,
)
    requires
        bucket < centres@.len(),
    ensures
        final(plotted)@ == match extremes {
            Some((low, high)) => old(plotted)@ + drawn(centres@[bucket as int], low, high),
            None => old(plotted)@,
        },
{
    if let Some((low, high)) = extremes {
        let at = centres[bucket];
        plotted.push((at, low));
        if !high.same(low) {
            plotted.push((at, high));
        }
        assert(plotted@ =~= old(plotted)@ + drawn(at, low, high));
    }
}

pub(crate) proof fn lemma_lowest(from: Real, values: Seq<Real>)
    ensures
        lowest(from, values) == from || values.contains(lowest(from, values)),
        !from.is_nan() ==> !lowest(from, values).is_nan() && lowest(from, values).rank()
            <= from.rank(),
        forall|i: int|
            0 <= i < values.len() && !(#[trigger] values[i]).is_nan() ==> !lowest(
                from,
                values,
            ).is_nan() && lowest(from, values).rank() <= values[i].rank(),
    decreases values.len(),
{
    if values.len() > 0 {
        let front = values.drop_last();
        lemma_lowest(from, front);
        let before = lowest(from, front);
        if front.contains(before) {
            let j = choose|j: int| 0 <= j < front.len() && front[j] == before;
            assert(values[j] == before);
        }
        assert(values[values.len() - 1] == values.last());
        assert forall|i: int| 0 <= i < values.len() && !(#[trigger] values[i]).is_nan() implies
            !lowest(from, values).is_nan() && lowest(from, values).rank() <= values[i].rank() by {
            if i < front.len() {
                assert(front[i] == values[i]);
            }
        }
    }
}

pub(crate) proof fn lemma_highest(from: Real, values: Seq<Real>)
    ensures
        highest(from, values) == from || values.contains(highest(from, values)),
        !from.is_nan() ==> !highest(from, values).is_nan() && highest(from, values).rank()
            >= from.rank(),
        forall|i: int|
            0 <= i < values.len() && !(#[trigger] values[i]).is_nan() ==> !highest(
                from,
                values,
            ).is_nan() && highest(from, values).rank() >= values[i].rank(),
    decreases values.len(),
{
    if values.len() > 0 {
        let front = values.drop_last();
        lemma_highest(from, front);
        let before = highest(from, front);
        if front.contains(before) {
            let j = choose|j: int| 0 <= j < front.len() && front[j] == before;
            assert(values[j] == before);
        }
        assert(values[values.len() - 1] == values.last());
        assert forall|i: int| 0 <= i < values.len() && !(#[trigger] values[i]).is_nan() implies
            !highest(from, values).is_nan() && highest(from, values).rank() >= values[i].rank() by {
            if i < front.len() {
                assert(front[i] == values[i]);
            }
        }
    }
}

/// A point of the plot in the given column is at or below a value.
pub open spec fn reaches_down(plot: Seq<(Real, Real)>, at: Real, value: Real) -> bool {
    exists|j: int|
        0 <= j < plot.len() && (#[trigger] plot[j]).0 == at && !plot[j].1.is_nan()
            && plot[j].1.rank() <= value.rank()
}

/// A point of the plot in the given column is at or above a value.
pub open spec fn reaches_up(plot: Seq<(Real, Real)>, at: Real, value: Real) -> bool {
    exists|j: int|
        0 <= j < plot.len() && (#[trigger] plot[j]).0 == at && !plot[j].1.is_nan()
            && plot[j].1.rank() >= value.rank()
}

/// No spike is thinned away: the plot reaches down to every sample and up to
/// it, in the column that the sample falls in.
pub proof fn law_every_sample_lies_between_drawn_points(
    columns: Seq<int>,
    values: Seq<Real>,
    centres: Seq<Real>,
    i: int,
)
    requires
        columns.len() == values.len(),
        0 <= i < columns.len(),
        !values[i].is_nan(),
    ensures
        reaches_down(thinned(columns, values, centres), centres[columns[i]], values[i]),
        reaches_up(thinned(columns, values, centres), centres[columns[i]], values[i]),
    decreases columns.len(),
{
    lemma_last_run(columns);
    let n = columns.len() as int;
    let s = last_run(columns);
    let at = centres[columns[i]];
    let before = thinned(columns.take(s), values.take(s), centres);
    let plot = thinned(columns, values, centres);
    if i < s {
        law_every_sample_lies_between_drawn_points(columns.take(s), values.take(s), centres, i);
        let down = choose|j: int|
            0 <= j < before.len() && (#[trigger] before[j]).0 == at && !before[j].1.is_nan()
                && before[j].1.rank() <= values[i].rank();
        let up = choose|j: int|
            0 <= j < before.len() && (#[trigger] before[j]).0 == at && !before[j].1.is_nan()
                && before[j].1.rank() >= values[i].rank();
        assert(plot[down] == before[down]);
        assert(plot[up] == before[up]);
    } else {
        let rest = values.subrange(s + 1, n);
        lemma_lowest(values[s], rest);
        lemma_highest(values[s], rest);
        if i > s {
            assert(rest[i - s - 1] == values[i]);
        }
        let k = before.len() as int;
        let low = lowest(values[s], rest);
        let high = highest(values[s], rest);
        assert(plot[k] == drawn(at, low, high)[0]);
        if !high.equals(low) {
            assert(plot[k + 1] == drawn(at, low, high)[1]);
        }
    }
}

/// A point of the plot is a sample, drawn in its column.
pub open spec fn is_sample(
    columns: Seq<int>,
    values: Seq<Real>,
    centres: Seq<Real>,
    point: (Real, Real),
) -> bool {
    exists|i: int|
        0 <= i < columns.len() && point == (centres[#[trigger] columns[i]], values[i])
}

/// Nothing but samples is drawn, each in the column that it falls in.
pub proof fn law_only_samples_are_drawn(
    columns: Seq<int>,
    values: Seq<Real>,
    centres: Seq<Real>,
    j: int,
)
    requires
        columns.len() == values.len(),
        0 <= j < thinned(columns, values, centres).len(),
    ensures
        is_sample(columns, values, centres, thinned(columns, values, centres)[j]),
    decreases columns.len(),
{
    lemma_last_run(columns);
    let n = columns.len() as int;
    let s = last_run(columns);
    let before = thinned(columns.take(s), values.take(s), centres);
    let plot = thinned(columns, values, centres);
    if j < before.len() {
        law_only_samples_are_drawn(columns.take(s), values.take(s), centres, j);
        let i = choose|i: int|
            0 <= i < s && before[j] == (centres[#[trigger] columns.take(s)[i]], values.take(s)[i]);
        assert(plot[j] == (centres[columns[i]], values[i]));
    } else {
        let rest = values.subrange(s + 1, n);
        lemma_lowest(values[s], rest);
        lemma_highest(values[s], rest);
        let value = plot[j].1;
        assert(plot[j].0 == centres[columns.last()]);
        if value == values[s] {
            assert(columns[s] == columns.last());
        } else {
            let k = choose|k: int| 0 <= k < rest.len() && rest[k] == value;
            assert(values[s + 1 + k] == value);
            assert(columns[s + 1 + k] == columns.last());
        }
    }
}

/// Every point drawn is a sample, at the centre of the column of its own bucket,
/// or of the last column where the panel has no such column.
pub proof fn law_points_are_drawn_where_the_samples_fall(
    buckets: Seq<usize>,
    values: Seq<Real>,
    centres: Seq<Real>,
    j: int,
)
    requires
        buckets.len() == values.len(),
        centres.len() > 0,
        0 <= j < thinned(columns_of(buckets, centres.len()), values, centres).len(),
    ensures
        exists|i: int|
            0 <= i < buckets.len() && thinned(
                columns_of(buckets, centres.len()),
                values,
                centres,
            )[j] == (
                if (#[trigger] buckets[i]) < centres.len() {
                    centres[buckets[i] as int]
                } else {
                    centres[centres.len() - 1]
                },
                values[i],
            ),
{
    let columns = columns_of(buckets, centres.len());
    let plot = thinned(columns, values, centres);
    law_a_sample_falls_in_the_column_of_its_bucket(buckets, centres.len());
    law_only_samples_are_drawn(columns, values, centres, j);
    let i = choose|i: int|
        0 <= i < columns.len() && plot[j] == (centres[#[trigger] columns[i]], values[i]);
    assert(plot[j].0 == if buckets[i] < centres.len() {
        centres[buckets[i] as int]
    } else {
        centres[centres.len() - 1]
    });
}

/// Highs and lows keep their place in time: at the centre of the column of a
/// sample's own bucket, or of the last column where the panel has no such
/// column, the plot reaches down to the sample and up to it.
pub proof fn law_highs_and_lows_keep_their_place_in_time(
    buckets: Seq<usize>,
    values: Seq<Real>,
    centres: Seq<Real>,
    i: int,
    at: Real,
)
    requires
        buckets.len() == values.len(),
        centres.len() > 0,
        0 <= i < buckets.len(),
        !values[i].is_nan(),
        at == if buckets[i] < centres.len() {
            centres[buckets[i] as int]
        } else {
            centres[centres.len() - 1]
        },
    ensures
        ({
            let plot = thinned(columns_of(buckets, centres.len()), values, centres);
            &&& exists|j: int|
                0 <= j < plot.len() && (#[trigger] plot[j]).0 == at && !plot[j].1.is_nan()
                    && !values[i].less(plot[j].1)
            &&& exists|j: int|
                0 <= j < plot.len() && (#[trigger] plot[j]).0 == at && !plot[j].1.is_nan()
                    && !plot[j].1.less(values[i])
        }),
{
    let columns = columns_of(buckets, centres.len());
    let plot = thinned(columns, values, centres);
    law_a_sample_falls_in_the_column_of_its_bucket(buckets, centres.len());
    law_every_sample_lies_between_drawn_points(columns, values, centres, i);
    assert(centres[columns[i]] == at);
    let down = choose|j: int|
        0 <= j < plot.len() && (#[trigger] plot[j]).0 == at && !plot[j].1.is_nan()
            && plot[j].1.rank() <= values[i].rank();
    let up = choose|j: int|
        0 <= j < plot.len() && (#[trigger] plot[j]).0 == at && !plot[j].1.is_nan()
            && plot[j].1.rank() >= values[i].rank();
    assert(!values[i].less(plot[down].1));
    assert(!plot[up].1.less(values[i]));
}

/// Of each run of samples in one column, at the centre of that column, the plot
/// has the lowest and then the highest, or one point where they are the same;
/// what was drawn of the samples before the run stands in front, untouched.
pub proof fn law_a_run_is_drawn_by_its_extremes(
    columns: Seq<int>,
    values: Seq<Real>,
    centres: Seq<Real>,
    s: int,
)
    requires
        columns.len() == values.len(),
        0 <= s < columns.len(),
        s > 0 ==> columns[s - 1] != columns[s],
        forall|j: int| s <= j < columns.len() ==> #[trigger] columns[j] == columns[s],
        forall|j: int| s <= j < columns.len() ==> !(#[trigger] values[j]).is_nan(),
    ensures
        ({
            let before = thinned(columns.take(s), values.take(s), centres);
            let plot = thinned(columns, values, centres);
            let low = plot[before.len() as int];
            let high = plot.last();
            &&& before.len() < plot.len() <= before.len() + 2
            &&& plot.take(before.len() as int) == before
            &&& low.0 == centres[columns[s]] && high.0 == centres[columns[s]]
            &&& values.skip(s).contains(low.1) && values.skip(s).contains(high.1)
            &&& forall|j: int|
                s <= j < values.len() ==> !(#[trigger] values[j]).less(low.1) && !high.1.less(
                    values[j],
                )
            &&& plot.len() == before.len() + 1 <==> forall|j: int|
                s <= j < values.len() ==> (#[trigger] values[j]).equals(values[s])
        }),
        thinned(Seq::empty(), Seq::empty(), centres) == Seq::<(Real, Real)>::empty(),
{
    let n = columns.len() as int;
    let before = thinned(columns.take(s), values.take(s), centres);
    let plot = thinned(columns, values, centres);
    let rest = values.subrange(s + 1, n);
    assert(columns.take(n) =~= columns);
    assert(values.take(n) =~= values);
    lemma_run_closed(columns, values, centres, n, s);
    lemma_lowest(values[s], rest);
    lemma_highest(values[s], rest);
    let low = lowest(values[s], rest);
    let high = highest(values[s], rest);
    let tail = drawn(centres[columns[s]], low, high);
    assert(plot == before + tail);
    assert(plot.take(before.len() as int) =~= before);
    assert(plot[before.len() as int] == tail[0]);
    assert(plot.last() == tail.last());
    assert forall|j: int| s <= j < values.len() implies low.rank() <= (
    #[trigger] values[j]).rank() <= high.rank() by {
        if j > s {
            assert(rest[j - s - 1] == values[j]);
        }
    }
    let run = values.skip(s);
    assert(run[0] == values[s]);
    if low != values[s] {
        let k = choose|k: int| 0 <= k < rest.len() && rest[k] == low;
        assert(run[k + 1] == low);
    }
    if high != values[s] {
        let k = choose|k: int| 0 <= k < rest.len() && rest[k] == high;
        assert(run[k + 1] == high);
    }
    if forall|j: int| s <= j < values.len() ==> (#[trigger] values[j]).equals(values[s]) {
        let a = choose|a: int| 0 <= a < run.len() && run[a] == low;
        let b = choose|b: int| 0 <= b < run.len() && run[b] == high;
        assert(values[s + a] == low && values[s + b] == high);
        assert(values[s + a].equals(values[s]) && values[s + b].equals(values[s]));
        assert(high.equals(low));
    }
}

/// Samples that are no numbers do not hide the others of their run, and a run of
/// nothing else is drawn as such.
pub proof fn law_the_lowest_and_the_highest_of_some(from: Real, values: Seq<Real>)
    ensures
        lowest(from, values) == from || values.contains(lowest(from, values)),
        highest(from, values) == from || values.contains(highest(from, values)),
        !from.less(lowest(from, values)) && !highest(from, values).less(from),
        forall|i: int|
            0 <= i < values.len() ==> !(#[trigger] values[i]).less(lowest(from, values))
                && !highest(from, values).less(values[i]),
        lowest(from, values).is_nan() <==> from.is_nan() && forall|i: int|
            0 <= i < values.len() ==> (#[trigger] values[i]).is_nan(),
        highest(from, values).is_nan() <==> from.is_nan() && forall|i: int|
            0 <= i < values.len() ==> (#[trigger] values[i]).is_nan(),
{
    lemma_lowest(from, values);
    lemma_highest(from, values);
    let low = lowest(from, values);
    let high = highest(from, values);
    if from.is_nan() && forall|i: int|
        0 <= i < values.len() ==> (#[trigger] values[i]).is_nan() {
        if low != from {
            let k = choose|k: int| 0 <= k < values.len() && values[k] == low;
            assert(values[k].is_nan());
        }
        if high != from {
            let k = choose|k: int| 0 <= k < values.len() && values[k] == high;
            assert(values[k].is_nan());
        }
    }
}

/// A panel is drawn with at most two points in each of its columns, where the
/// samples are in time order.
pub proof fn law_a_plot_fits_its_panel(columns: Seq<int>, values: Seq<Real>, centres: Seq<Real>)
    requires
        columns.len() == values.len(),
        forall|i: int| 0 <= i < columns.len() ==> 0 <= #[trigger] columns[i] < centres.len(),
        forall|i: int, j: int| 0 <= i <= j < columns.len() ==> columns[i] <= columns[j],
    ensures
        thinned(columns, values, centres).len() <= 2 * centres.len(),
        columns.len() > 0 ==> thinned(columns, values, centres).len() <= 2 * (columns.last() + 1),
    decreases columns.len(),
{
    if columns.len() > 0 {
        lemma_last_run(columns);
        let s = last_run(columns);
        law_a_plot_fits_its_panel(columns.take(s), values.take(s), centres);
        if s > 0 {
            assert(columns[s - 1] < columns[columns.len() - 1]);
            assert(columns.take(s).last() == columns[s - 1]);
        }
        assert(columns[columns.len() - 1] < centres.len());
    }
}

/// The extent of a plot spans it, and no more: both ends are plotted values.
pub proof fn law_the_extent_spans_the_plot(values: Seq<Real>, low: Real, high: Real)
    requires
        extent_of(values) == Some((low, high)),
    ensures
        values.contains(low),
        values.contains(high),
        forall|i: int|
            0 <= i < values.len() && !(#[trigger] values[i]).is_nan() ==> low.rank()
                <= values[i].rank() <= high.rank(),
{
    lemma_lowest(infinity(), values);
    lemma_highest(negative_infinity(), values);
}

/// A plot has an extent exactly if it has a finite value and no infinite one;
/// what is no number does not count.
pub proof fn law_finite_plots_have_an_extent(values: Seq<Real>)
    ensures
        extent_of(values) is Some <==> (exists|i: int|
            0 <= i < values.len() && (#[trigger] values[i]).is_finite()) && (forall|i: int|
            0 <= i < values.len() ==> (#[trigger] values[i]).is_finite() || values[i].is_nan()),
        infinity().bits == 0x7ff0_0000_0000_0000,
        negative_infinity().bits == 0xfff0_0000_0000_0000,
{
    let low = lowest(infinity(), values);
    let high = highest(negative_infinity(), values);
    lemma_lowest(infinity(), values);
    lemma_highest(negative_infinity(), values);
    if extent_of(values) is Some {
        let k = choose|k: int| 0 <= k < values.len() && values[k] == low;
        assert(values[k].is_finite());
        assert forall|i: int| 0 <= i < values.len() implies (#[trigger] values[i]).is_finite()
            || values[i].is_nan() by {}
    }
    if (exists|i: int| 0 <= i < values.len() && (#[trigger] values[i]).is_finite()) && (forall|
        i: int,
    |
        0 <= i < values.len() ==> (#[trigger] values[i]).is_finite() || values[i].is_nan()) {
        let i = choose|i: int| 0 <= i < values.len() && (#[trigger] values[i]).is_finite();
        assert(low.rank() <= values[i].rank() <= high.rank());
        assert(values.contains(low)) by {
            if low == infinity() {
                assert(false);
            }
        }
        assert(values.contains(high)) by {
            if high == negative_infinity() {
                assert(false);
            }
        }
        let a = choose|a: int| 0 <= a < values.len() && values[a] == low;
        let b = choose|b: int| 0 <= b < values.len() && values[b] == high;
        assert(values[a].is_finite() || values[a].is_nan());
        assert(values[b].is_finite() || values[b].is_nan());
    }
}

/// What is trimmed away was recorded before the oldest time to keep, and the
/// first sample that stays was not.
pub proof fn law_only_old_samples_are_trimmed(points: Seq<(Real, Real)>, oldest: Real)
    ensures
        count_before(points, oldest) <= points.len(),
        forall|i: int|
            0 <= i < count_before(points, oldest) ==> (#[trigger] points[i]).0.less(oldest),
        count_before(points, oldest) < points.len() ==> !points[count_before(
            points,
            oldest,
        ) as int].0.less(oldest),
    decreases points.len(),
{
    if points.len() > 0 && points[0].0.less(oldest) {
        let rest = points.skip(1);
        law_only_old_samples_are_trimmed(rest, oldest);
        assert forall|i: int| 0 <= i < count_before(points, oldest) implies (
        #[trigger] points[i]).0.less(oldest) by {
            if i > 0 {
                assert(rest[i - 1] == points[i]);
            }
        }
    }
}

/// Where the samples are in time order, trimming leaves no sample recorded
/// before the oldest time to keep, and the window begins at the first sample
/// inside it.
pub proof fn law_ordered_samples_are_split_by_time(points: Seq<(Real, Real)>, time: Real)
    requires
        in_time_order(points),
        forall|i: int| 0 <= i < points.len() ==> !(#[trigger] points[i]).0.is_nan(),
    ensures
        split_by_time(points, count_before(points, time) as int, time),
{
    law_only_old_samples_are_trimmed(points, time);
    let k = count_before(points, time) as int;
    assert forall|i: int| k <= i < points.len() implies !(#[trigger] points[i]).0.less(time) by {
        if i > k {
            assert(!points[i].0.less(points[k].0));
        }
    }
}

/// A window stays in time order as long as nothing is taken in that was
/// recorded before its newest sample, and trimming leaves it in order.
pub proof fn law_the_window_stays_in_time_order(
    points: Seq<(Real, Real)>,
    samples: Seq<(Real, Real)>,
    oldest: Real,
)
    requires
        in_time_order(points),
        in_time_order(samples),
        forall|i: int| 0 <= i < points.len() ==> !(#[trigger] points[i]).0.is_nan(),
        points.len() > 0 && samples.len() > 0 ==> !samples[0].0.is_nan() && !samples[0].0.less(
            points.last().0,
        ),
    ensures
        in_time_order(points + samples),
        in_time_order(points.skip(count_before(points, oldest) as int)),
{
    law_only_old_samples_are_trimmed(points, oldest);
    let all = points + samples;
    let n = points.len() as int;
    assert forall|i: int, j: int| 0 <= i < j < all.len() implies !(#[trigger] all[j]).0.less(
        (#[trigger] all[i]).0,
    ) by {
        if j < n {
            assert(!points[j].0.less(points[i].0));
        } else if i >= n {
            assert(!samples[j - n].0.less(samples[i - n].0));
        } else {
            if i < n - 1 {
                assert(!points[n - 1].0.less(points[i].0));
            }
            if j > n {
                assert(!samples[j - n].0.less(samples[0].0));
            }
        }
    }
}

} // verus!
