use sqcli::number::Real;
use sqcli::stream::{Chunk, Update};
use sqcli::timestamp::Timestamp;
use sqcli::trace::Trace;
use sqcli::tui::{
    plot_columns, reach, resized, shared_scale, time_labels, trace_title, App, Key, KeyPress,
    Panel, Resize, Scale, Segment, Tone, DEFAULT_WINDOW, MAX_WINDOW, MIN_WINDOW, NOTICE_LINGER,
};

fn value_of(value: f64) -> Real {
    Real {
        bits: value.to_bits(),
    }
}

fn number(held: Real) -> f64 {
    f64::from_bits(held.bits)
}

fn chunk(channel: &str, start_second: u32, rate: f64, samples: Vec<f64>) -> Chunk {
    let start = chrono::NaiveDate::from_ymd_opt(2026, 9, 12)
        .unwrap()
        .and_hms_opt(12, 0, start_second)
        .unwrap()
        .and_utc();
    Chunk {
        stream_id: format!("QS.BLA..{}", channel),
        channel: channel.to_string(),
        start: Timestamp {
            seconds: start.timestamp(),
            nanos: 0,
        },
        sample_rate: value_of(rate),
        samples: samples.into_iter().map(value_of).collect(),
    }
}

/// Seconds since the epoch, the way the plot counts time.
fn seconds(at: Timestamp) -> f64 {
    (at.seconds * 1_000_000 + (at.nanos / 1_000) as i64) as f64 / 1e6
}

/// The times of the samples of a chunk, as the program works them out.
fn times(chunk: &Chunk) -> Vec<Real> {
    let start = seconds(chunk.start);
    let rate = number(chunk.sample_rate);
    let step = if rate > 0.0 { 1.0 / rate } else { 0.0 };
    (0..chunk.samples.len())
        .map(|index| value_of(start + index as f64 * step))
        .collect()
}

fn new_trace(chunk: &Chunk) -> Trace {
    Trace::new(chunk)
}

fn extend(trace: &mut Trace, chunk: &Chunk) {
    trace.extend(chunk, &times(chunk));
}

/// The plot of a panel, with the columns worked out.
fn plot(trace: &mut Trace, right_edge: f64, window: f64, columns: usize) {
    let columns = columns.max(1);
    let bucket_width = window / columns as f64;
    let left_edge = right_edge - window;
    let first = trace.visible_from(value_of(left_edge));
    let buckets: Vec<usize> = trace
        .points
        .iter()
        .skip(first)
        .map(|(time, _)| ((number(*time) - left_edge) / bucket_width) as usize)
        .collect();
    let centres: Vec<Real> = (0..columns)
        .map(|bucket| value_of((bucket as f64 + 0.5) * bucket_width - window))
        .collect();
    trace.plot(first, &buckets, &centres);
}

fn plotted(trace: &Trace) -> Vec<(f64, f64)> {
    trace
        .plotted
        .iter()
        .map(|(at, value)| (number(*at), number(*value)))
        .collect()
}

fn view() -> App {
    App::new("A3B7K9Q2 · websocket".to_string(), value_of(60.0))
}

fn take(app: &mut App, chunk: Chunk) {
    let times = times(&chunk);
    app.apply(Update::Data(chunk), &times, 0);
}

fn tell(app: &mut App, update: Update, now: u128) {
    app.apply(update, &Vec::new(), now);
}

fn held(app: &App, stream: &str) -> usize {
    let place = app.traces.find(stream).expect("a panel");
    app.traces.value(place).points.len()
}

#[test]
fn samples_are_timed_from_the_record_start_and_its_rate() {
    let mut trace = new_trace(&chunk("HHZ", 0, 100.0, vec![]));
    extend(&mut trace, &chunk("HHZ", 0, 100.0, vec![1.0, 2.0, 3.0]));

    let start = seconds(chunk("HHZ", 0, 100.0, vec![]).start);
    // Times are seconds since the epoch, so they are compared with the
    // slack an f64 that large leaves — still a thousand times finer than
    // the gap between two samples.
    let times: Vec<f64> = trace
        .points
        .iter()
        .map(|(time, _)| number(*time) - start)
        .collect();
    assert_eq!(times.len(), 3);
    for (measured, expected) in times.iter().zip([0.0, 0.01, 0.02]) {
        assert!(
            (measured - expected).abs() < 1e-6,
            "{} is not {}",
            measured,
            expected
        );
    }
}

#[test]
fn a_panel_keeps_the_high_and_low_of_every_column() {
    // The whole point of the thinning: a spike between two columns has to
    // survive, which a plain stride would drop.
    let mut trace = new_trace(&chunk("HHZ", 0, 10.0, vec![]));
    extend(
        &mut trace,
        &chunk("HHZ", 0, 10.0, vec![0.0, 500.0, -500.0, 0.0]),
    );
    let edge = trace.latest().expect("a sample");

    plot(&mut trace, number(edge), 1.0, 2);

    let values: Vec<f64> = plotted(&trace).iter().map(|(_, value)| *value).collect();
    assert!(values.contains(&500.0), "the peak was thinned away");
    assert!(values.contains(&-500.0), "the trough was thinned away");
}

#[test]
fn the_plot_covers_the_window_and_ends_at_the_newest_sample() {
    let mut trace = new_trace(&chunk("HHZ", 0, 10.0, vec![]));
    extend(
        &mut trace,
        &chunk("HHZ", 0, 10.0, (0..100).map(|i| i as f64).collect()),
    );
    let edge = trace.latest().expect("a sample");

    plot(&mut trace, number(edge), 10.0, 20);

    // Time is counted backwards from the newest sample, so every point sits
    // within the window and none of them are in the future.
    for (at, _) in plotted(&trace) {
        assert!((-10.0..=0.0).contains(&at), "{} is outside the window", at);
    }
}

#[test]
fn only_the_window_is_drawn_however_much_is_buffered() {
    let mut trace = new_trace(&chunk("HHZ", 0, 10.0, vec![]));
    // Ten seconds of samples, of which the last two are asked for.
    extend(
        &mut trace,
        &chunk("HHZ", 0, 10.0, (0..100).map(|i| i as f64).collect()),
    );
    let edge = trace.latest().expect("a sample");

    plot(&mut trace, number(edge), 2.0, 8);

    let lowest = plotted(&trace)
        .iter()
        .map(|(_, value)| *value)
        .fold(f64::INFINITY, f64::min);
    // Everything before the last two seconds stays out of the picture.
    assert!(lowest >= 79.0, "older samples leaked in: {}", lowest);
}

#[test]
fn old_samples_are_forgotten_once_they_scroll_out() {
    let mut app = view();
    take(&mut app, chunk("HHZ", 0, 1.0, vec![1.0; 10]));
    // A record arriving well past the buffer's reach retires the old one.
    take(&mut app, chunk("HHZ", 0, 1.0, vec![2.0; 10]));
    let before = held(&app, "QS.BLA..HHZ");
    let edge = number(app.right_edge().unwrap());
    app.trim(value_of(edge - 600.0));

    assert_eq!(app.packets, 2);
    assert!(held(&app, "QS.BLA..HHZ") <= before);

    // What lies before the oldest time to keep is gone, and nothing else.
    app.trim(value_of(edge - 3.0));
    assert_eq!(held(&app, "QS.BLA..HHZ"), 14);
}

#[test]
fn each_channel_gets_its_own_panel() {
    let mut app = view();
    take(&mut app, chunk("HHZ", 0, 100.0, vec![1.0]));
    take(&mut app, chunk("HHN", 0, 100.0, vec![1.0]));
    take(&mut app, chunk("HHZ", 1, 100.0, vec![1.0]));

    assert_eq!(app.traces.len(), 2);
    assert_eq!(held(&app, "QS.BLA..HHZ"), 2);
}

#[test]
fn the_window_cannot_be_stretched_past_what_is_kept() {
    let mut app = view();
    for _ in 0..20 {
        app.resize_window(Resize::Double);
    }
    assert_eq!(app.window, value_of(600.0));
    assert_eq!(app.window.bits, MAX_WINDOW);

    for _ in 0..20 {
        app.resize_window(Resize::Halve);
    }
    assert_eq!(app.window, value_of(5.0));
    assert_eq!(app.window.bits, MIN_WINDOW);
}

#[test]
fn focus_wraps_around_the_channels() {
    let mut app = view();
    for channel in ["HHZ", "HHN", "HHE"] {
        take(&mut app, chunk(channel, 0, 100.0, vec![1.0]));
    }

    // The traces are keyed by stream, so they are in channel order: E, N, Z.
    app.scroll_focus(false);
    assert_eq!(app.focus, 2);
    app.scroll_focus(true);
    assert_eq!(app.focus, 0);
    app.scroll_focus(true);
    assert_eq!(app.focus, 1);
    app.scroll_focus(false);
    assert_eq!(app.focus, 0);
}

#[test]
fn a_flat_trace_still_gets_a_panel_to_sit_in() {
    let mut trace = new_trace(&chunk("HHZ", 0, 10.0, vec![]));
    extend(&mut trace, &chunk("HHZ", 0, 10.0, vec![7.0; 10]));
    let edge = number(trace.latest().expect("a sample"));
    plot(&mut trace, edge, 1.0, 8);

    let (low, high) = trace.extent().expect("a plot");
    let (low, high) = (number(low), number(high));
    let margin = ((high - low) * 0.08).max(1.0);
    let (low, high) = (low - margin, high + margin);
    assert!(low < 7.0 && high > 7.0, "a flat trace collapsed to a line");
}

fn press(key: Key) -> KeyPress {
    KeyPress {
        key,
        control: false,
        pressed: true,
    }
}

#[test]
fn quitting_is_spelled_several_ways() {
    let mut app = view();

    assert!(app.handle_key(press(Key::Char('q'))));
    assert!(app.handle_key(press(Key::Esc)));
    assert!(app.handle_key(KeyPress {
        key: Key::Char('c'),
        control: true,
        pressed: true
    }));
    assert!(!app.handle_key(press(Key::Char('a'))));
}

#[test]
fn a_key_that_goes_up_does_nothing() {
    let mut app = view();
    assert!(!app.handle_key(KeyPress {
        key: Key::Char('q'),
        control: false,
        pressed: false
    }));
    assert!(!app.handle_key(press(Key::Char('c'))));
    assert!(!app.handle_key(press(Key::Other)));
    assert!(app.handle_key(KeyPress {
        key: Key::Char('d'),
        control: true,
        pressed: true
    }));
}

#[test]
fn keys_move_the_view() {
    let mut app = view();
    for channel in ["HHZ", "HHN", "HHE"] {
        take(&mut app, chunk(channel, 0, 100.0, vec![1.0]));
    }
    for (key, focus) in [
        (Key::Down, 1),
        (Key::Tab, 2),
        (Key::Char('j'), 0),
        (Key::Up, 2),
        (Key::BackTab, 1),
        (Key::Char('k'), 0),
    ] {
        assert!(!app.handle_key(press(key)));
        assert_eq!(app.focus, focus);
    }
    app.handle_key(press(Key::Char('+')));
    assert_eq!(app.window, value_of(120.0));
    app.handle_key(press(Key::Char('=')));
    assert_eq!(app.window, value_of(240.0));
    app.handle_key(press(Key::Char('-')));
    app.handle_key(press(Key::Char('_')));
    assert_eq!(app.window, value_of(60.0));
    app.handle_key(press(Key::Enter));
    assert!(app.expanded);
    app.handle_key(press(Key::Char('f')));
    assert!(!app.expanded);
    app.handle_key(press(Key::Char('a')));
    assert!(app.common_scale);
    app.handle_key(press(Key::Char('a')));
    assert!(!app.common_scale);
}

#[test]
fn a_window_is_resized_as_numbers_are() {
    assert_eq!(number(Real { bits: DEFAULT_WINDOW }), 60.0);
    for window in [
        60.0,
        0.1,
        2.5,
        2.6,
        7.7,
        10.0,
        299.0,
        300.0,
        301.0,
        600.0,
        1200.0,
        1201.0,
        1e300,
        f64::MAX,
        f64::MIN_POSITIVE,
        5e-324,
        0.0,
        -0.0,
        -7.0,
        f64::INFINITY,
        f64::NEG_INFINITY,
    ] {
        assert_eq!(
            number(resized(value_of(window), Resize::Double)),
            (window * 2.0).clamp(5.0, 600.0)
        );
        assert_eq!(
            number(resized(value_of(window), Resize::Halve)),
            (window * 0.5).clamp(5.0, 600.0)
        );
    }
    assert!(number(resized(value_of(f64::NAN), Resize::Double)).is_nan());
}

#[test]
fn a_rate_that_says_nothing_is_not_taken_over() {
    let mut trace = new_trace(&chunk("HHZ", 0, 100.0, vec![]));
    extend(&mut trace, &chunk("HHZ", 0, 0.0, vec![1.0]));
    assert_eq!(trace.sample_rate, value_of(100.0));
    extend(&mut trace, &chunk("HHZ", 0, -1.0, vec![]));
    assert_eq!(trace.sample_rate, value_of(100.0));
    extend(&mut trace, &chunk("HHZ", 0, f64::NAN, vec![]));
    assert_eq!(trace.sample_rate, value_of(100.0));
    extend(&mut trace, &chunk("HHZ", 0, 50.0, vec![]));
    assert_eq!(trace.sample_rate, value_of(50.0));
    assert_eq!(trace.points.len(), 1);
    assert_eq!(trace.channel, "HHZ");
}

fn bare(times: &[f64]) -> Trace {
    let held = chunk("HHZ", 0, 1.0, times.iter().map(|t| -t).collect());
    let mut trace = Trace::new(&held);
    trace.extend(&held, &times.iter().map(|t| value_of(*t)).collect());
    trace
}

#[test]
fn everything_before_the_oldest_time_is_trimmed() {
    let mut trace = bare(&[1.0, 2.0, 3.0, 5.0, 7.0]);
    trace.trim(value_of(3.0));
    let times: Vec<f64> = trace.points.iter().map(|(t, _)| number(*t)).collect();
    assert_eq!(times, [3.0, 5.0, 7.0]);
    trace.trim(value_of(3.0));
    assert_eq!(trace.points.len(), 3);
    trace.trim(value_of(f64::NAN));
    assert_eq!(trace.points.len(), 3);
    trace.trim(value_of(10.0));
    assert!(trace.latest().is_none());
}

#[test]
fn the_window_begins_at_its_first_sample() {
    let trace = bare(&[1.0, 2.0, 2.0, 3.0, 9.0]);
    for (edge, first) in [
        (0.0, 0),
        (1.0, 0),
        (1.5, 1),
        (2.0, 1),
        (2.5, 3),
        (9.0, 4),
        (9.5, 5),
    ] {
        assert_eq!(trace.visible_from(value_of(edge)), first);
    }
    assert_eq!(bare(&[]).visible_from(value_of(1.0)), 0);
}

#[test]
fn each_run_of_a_column_is_drawn_with_its_extremes() {
    let held = chunk("HHZ", 0, 1.0, vec![3.0, 1.0, 2.0, 5.0, 5.0, 8.0, 4.0]);
    let mut trace = Trace::new(&held);
    extend(&mut trace, &held);
    let centres = vec![value_of(-3.0), value_of(-2.0), value_of(-1.0)];
    // A sample past the last column belongs to it, and a column that is entered
    // again is drawn again.
    trace.plot(1, &vec![0, 0, 1, 1, 9, 0], &centres);
    assert_eq!(
        plotted(&trace),
        [(-3.0, 1.0), (-3.0, 2.0), (-2.0, 5.0), (-1.0, 8.0), (-3.0, 4.0)]
    );
    trace.plot(7, &vec![], &centres);
    assert!(trace.plotted.is_empty());
}

#[test]
fn no_spike_is_thinned_away() {
    let mut state: u32 = 7;
    let values: Vec<f64> = (0..500)
        .map(|_| {
            state = state.wrapping_mul(1_664_525).wrapping_add(1_013_904_223);
            (state >> 8) as f64 - 8_000_000.0
        })
        .collect();
    let mut trace = new_trace(&chunk("HHZ", 0, 100.0, vec![]));
    extend(&mut trace, &chunk("HHZ", 0, 100.0, values.clone()));
    let edge = number(trace.latest().unwrap());
    plot(&mut trace, edge, 5.0, 40);
    assert!(trace.plotted.len() <= 80);
    let drawn: Vec<f64> = plotted(&trace).iter().map(|(_, v)| *v).collect();
    let max = values.iter().cloned().fold(f64::MIN, f64::max);
    let min = values.iter().cloned().fold(f64::MAX, f64::min);
    assert!(drawn.contains(&max) && drawn.contains(&min));
    assert!(drawn.iter().all(|v| values.contains(v)));
    let (low, high) = trace.extent().unwrap();
    assert_eq!((number(low), number(high)), (min, max));
}

#[test]
fn a_plot_without_finite_values_has_no_extent() {
    let mut trace = bare(&[]);
    assert_eq!(trace.extent(), None);
    trace.plotted = vec![(value_of(0.0), value_of(f64::NAN))];
    assert_eq!(trace.extent(), None);
    trace.plotted.push((value_of(0.0), value_of(2.0)));
    assert_eq!(trace.extent(), Some((value_of(2.0), value_of(2.0))));
    trace.plotted.push((value_of(0.0), value_of(f64::INFINITY)));
    assert_eq!(trace.extent(), None);
}

#[test]
fn the_right_edge_follows_the_newest_channel() {
    let mut app = view();
    assert_eq!(app.right_edge(), None);
    take(&mut app, chunk("HHZ", 5, 1.0, vec![1.0, 1.0]));
    take(&mut app, chunk("HHN", 0, 1.0, vec![1.0]));
    take(&mut app, chunk("HHE", 0, 1.0, vec![]));
    let newest = seconds(chunk("HHZ", 6, 1.0, vec![]).start);
    assert_eq!(app.right_edge(), Some(value_of(newest)));
}

fn line(segments: &[Segment]) -> String {
    segments.iter().map(|segment| segment.text.as_str()).collect()
}

#[test]
fn the_header_says_how_it_is_going() {
    let mut app = view();
    let tones = |app: &App| -> Vec<Tone> { app.header(None).iter().map(|s| s.tone).collect() };
    assert_eq!(
        line(&app.header(None)),
        "A3B7K9Q2 · websocket  connecting…  ·  0 packets"
    );
    assert_eq!(tones(&app), [Tone::Bold, Tone::Plain, Tone::Fair, Tone::Plain]);
    tell(
        &mut app,
        Update::Connected {
            server: "backend websocket".into(),
            station: "A3B7K9Q2".into(),
        },
        0,
    );
    take(&mut app, chunk("HHZ", 0, 1.0, vec![1.0]));
    assert_eq!(
        line(&app.header(Some("0.4"))),
        "A3B7K9Q2 · websocket  live  A3B7K9Q2  backend websocket  ·  1 packets  ·  0.4s behind"
    );
    assert_eq!(app.header(None)[2].tone, Tone::Good);
    tell(&mut app, Update::Disconnected("gone".into()), 0);
    assert_eq!(
        line(&app.header(None)),
        "A3B7K9Q2 · websocket  reconnecting  ·  1 packets"
    );
    assert_eq!(app.header(None)[2].tone, Tone::Bad);
}

#[test]
fn a_notice_passes_and_a_lost_connection_stays() {
    let mut app = view();
    let reminders = "q quit  ↑↓ focus  ⏎ expand  +/- window (60s)  a per-channel scale";
    assert_eq!(app.footer("60", 0).text, reminders);
    assert_eq!(app.footer("60", 0).tone, Tone::Faint);
    tell(&mut app, Update::Notice("a hiccup".into()), 5);
    assert_eq!(app.footer("60", 5).text, "a hiccup");
    assert_eq!(app.footer("60", 4 + NOTICE_LINGER).tone, Tone::Fair);
    assert_eq!(app.footer("60", 5 + NOTICE_LINGER).text, reminders);
    assert_eq!(app.footer("60", 0).text, "a hiccup");
    tell(&mut app, Update::Disconnected("gone".into()), 6);
    assert_eq!(app.footer("60", 6).text, "gone");
    assert_eq!(app.footer("60", 6).tone, Tone::Bad);
    // A connection that is back has nothing left to complain about.
    tell(
        &mut app,
        Update::Connected {
            server: "s".into(),
            station: "t".into(),
        },
        7,
    );
    app.expanded = true;
    app.common_scale = true;
    assert_eq!(
        app.footer("5", 7).text,
        "q quit  ↑↓ focus  ⏎ expand (on)  +/- window (5s)  a shared scale"
    );
}

#[test]
fn an_empty_view_says_what_it_waits_for() {
    let mut app = view();
    assert!(app.shown_panels().is_empty());
    assert_eq!(app.waiting().text, "connecting…");
    tell(
        &mut app,
        Update::Connected {
            server: "s".into(),
            station: "t".into(),
        },
        0,
    );
    assert_eq!(app.waiting().text, "waiting for the first packet…");
    assert_eq!(app.waiting().tone, Tone::Faint);
    tell(&mut app, Update::Disconnected("register this machine".into()), 0);
    assert_eq!(app.waiting().text, "register this machine");
    assert_eq!(app.waiting().tone, Tone::Bad);
}

#[test]
fn panels_are_stacked_or_one_has_it_all() {
    let mut app = view();
    for index in 0..8 {
        take(&mut app, chunk(&format!("C{}", index), 0, 1.0, vec![1.0]));
    }
    app.focus = 7;
    let panels = app.shown_panels();
    assert_eq!(panels.len(), 8);
    for (index, panel) in panels.iter().enumerate() {
        assert_eq!(
            *panel,
            Panel {
                index,
                colour: index % 6,
                focused: index == 7,
                timed: index == 7
            }
        );
    }
    app.expanded = true;
    assert_eq!(
        app.shown_panels(),
        [Panel {
            index: 7,
            colour: 1,
            focused: false,
            timed: true
        }]
    );
}

#[test]
fn a_panel_has_two_points_in_every_column() {
    assert_eq!(plot_columns(80), 156);
    assert_eq!(plot_columns(3), 2);
    assert_eq!(plot_columns(2), 1);
    assert_eq!(plot_columns(0), 1);
    assert_eq!(plot_columns(u16::MAX), 131_066);
}

#[test]
fn one_scale_spans_every_channel() {
    let scales = vec![(value_of(-1.0), value_of(2.0)), (value_of(-3.0), value_of(1.0))];
    assert_eq!(shared_scale(&scales), (value_of(-3.0), value_of(2.0)));
    assert_eq!(
        shared_scale(&vec![]),
        (value_of(f64::INFINITY), value_of(f64::NEG_INFINITY))
    );
    assert_eq!(reach(value_of(-3.0), value_of(2.0)), value_of(3.0));
    assert_eq!(reach(value_of(-1.0), value_of(2.0)), value_of(2.0));
}

#[test]
fn a_title_fits_its_number() {
    for (value, scale) in [
        (0.0, Scale::Fraction),
        (0.999, Scale::Fraction),
        (1.0, Scale::Whole),
        (-999.9, Scale::Whole),
        (1e3, Scale::Kilo),
        (-41_800.0, Scale::Kilo),
        (999_999.0, Scale::Kilo),
        (1e6, Scale::Mega),
        (1e9, Scale::Giga),
        (f64::NEG_INFINITY, Scale::Giga),
        (f64::NAN, Scale::Fraction),
    ] {
        assert_eq!(Scale::for_value(value_of(value)), scale);
    }
    assert_eq!(
        trace_title("EHZ", "100", Scale::Kilo, "41.8"),
        " EHZ  100 Hz  ±41.8k "
    );
    assert_eq!(
        trace_title("EHZ", "100", Scale::Whole, "7"),
        " EHZ  100 Hz  ±7 "
    );
    assert_eq!(
        [Scale::Giga.suffix(), Scale::Mega.suffix(), Scale::Fraction.suffix()],
        ["G", "M", ""]
    );
    assert_eq!(time_labels(true, "60"), ["-60s", "now"]);
    assert!(time_labels(false, "60").is_empty());
}

#[test]
fn a_window_stays_in_time_order() {
    let mut trace = bare(&[1.0, 2.0]);
    let more = chunk("HHZ", 0, 1.0, vec![0.0, 0.0, 0.0]);
    trace.extend(&more, &vec![value_of(2.0), value_of(3.0), value_of(4.0)]);
    trace.trim(value_of(2.0));
    let times: Vec<f64> = trace.points.iter().map(|(t, _)| number(*t)).collect();
    assert_eq!(times, [2.0, 2.0, 3.0, 4.0]);
    assert_eq!(trace.visible_from(value_of(3.0)), 2);
}
