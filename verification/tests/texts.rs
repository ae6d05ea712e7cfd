use sqcli::order::{reverse, sort, Alphabetical};
use sqcli::text::{
    at_or_before, chars_of, contains, decimal_text, digits_text, find, find_last, has_char,
    has_text, join, only_alphanumeric, parse_port, piece_of, same_text, split, starts_with,
    text_of, trim_back, trim_both, Edge,
};
use sqcli::text_map::TextMap;
use sqcli::timestamp::{elapsed_nanos, Timestamp};

const TEXTS: [&str; 12] = [
    "",
    "a",
    "ab",
    "aab",
    "abab",
    "aaa",
    "b",
    "Z",
    "ä",
    "\u{10ffff}",
    "\u{ffff}",
    "aba",
];

#[test]
fn texts_are_searched_as_the_standard_library_searches_them() {
    for hay in TEXTS {
        for needle in TEXTS {
            assert_eq!(contains(hay, needle), hay.contains(needle));
            assert_eq!(starts_with(hay, needle), hay.starts_with(needle));
            assert_eq!(same_text(hay, needle), hay == needle);
            assert_eq!(at_or_before(hay, needle), hay <= needle);
            let found = find(&chars_of(hay), &chars_of(needle), 0);
            let expected = hay.find(needle).map(|at| hay[..at].chars().count());
            assert_eq!(found, expected);
            if !needle.is_empty() {
                let pieces: Vec<String> = split(&chars_of(hay), &chars_of(needle))
                    .into_iter()
                    .map(|piece| piece.into_iter().collect())
                    .collect();
                assert_eq!(pieces, hay.split(needle).collect::<Vec<_>>());
            }
        }
    }
}

#[test]
fn white_space_is_what_the_standard_library_calls_so() {
    for c in '\0'..=char::MAX {
        assert_eq!(Edge::White.takes(c), c.is_whitespace(), "{:?}", c);
    }
    assert!(Edge::LineEnd.takes('\r') && Edge::LineEnd.takes('\n') && !Edge::LineEnd.takes(' '));
    assert!(Edge::Zulu.takes('Z') && Edge::Zulu.takes('z') && !Edge::Zulu.takes('+'));
}

#[test]
fn edges_are_trimmed_off() {
    assert_eq!(trim_both(" \t a b\u{2003}\n", Edge::White), "a b");
    assert_eq!(trim_both("   ", Edge::White), "");
    assert_eq!(trim_both("\r\nOK\r\n", Edge::LineEnd), "OK");
    assert_eq!(trim_back("Z12:00zZ", Edge::Zulu), "Z12:00");
    assert_eq!(trim_back("zz", Edge::Zulu), "");
}

#[test]
fn pieces_are_cut_out_of_a_text() {
    let chars = chars_of("hällo");
    assert_eq!(text_of(&chars, 1, 3), "äl");
    assert_eq!(piece_of(&chars, 0, 2), ['h', 'ä']);
    assert_eq!(text_of(&chars, 5, 5), "");
    assert_eq!(find_last(&chars_of("a:b:c"), ':'), Some(3));
    assert_eq!(find_last(&chars_of("abc"), ':'), None);
    assert_eq!(parse_port(&chars_of("x:80"), 2), Some(80));
    assert!(has_char("a.b", '.') && !has_char("ab", '.'));
    assert!(only_alphanumeric("") && only_alphanumeric("aZ09") && !only_alphanumeric("aé"));
}

#[test]
fn numbers_are_spelled_in_decimal() {
    for n in [0u128, 7, 10, 99, 100, 1_234_567_890, u128::MAX] {
        assert_eq!(digits_text(n), n.to_string());
    }
    for n in [0i128, -1, -10, 42, i128::MAX, i128::MIN + 1] {
        assert_eq!(decimal_text(n), n.to_string());
    }
}

#[test]
fn texts_are_joined_and_listed() {
    let list: Vec<String> = ["b", "", "a"].iter().map(|text| text.to_string()).collect();
    assert_eq!(join(&list, ", "), "b, , a");
    assert_eq!(join(&vec![], ", "), "");
    assert!(has_text(&list, "") && has_text(&list, "a") && !has_text(&list, "c"));
    let mut sorted = list.clone();
    sort(&mut sorted, &Alphabetical);
    assert_eq!(sorted, ["", "a", "b"]);
    reverse(&mut sorted);
    assert_eq!(sorted, ["b", "a", ""]);
}

#[test]
fn a_map_is_walked_in_the_order_of_its_keys() {
    let mut map: TextMap<u32> = TextMap::new();
    for (value, key) in ["m", "c", "z", "c", "", "m"].iter().enumerate() {
        let place = map.ensure(key, 0);
        *map.value_mut(place) += value as u32;
    }
    let entries: Vec<(String, u32)> = (0..map.len())
        .map(|i| (map.key(i).to_string(), *map.value(i)))
        .collect();
    let expected: Vec<(String, u32)> = [("", 4), ("c", 4), ("m", 5), ("z", 2)]
        .iter()
        .map(|(key, value)| (key.to_string(), *value))
        .collect();
    assert_eq!(entries, expected);
    assert_eq!(map.find("m"), Some(2));
    assert_eq!(map.find("n"), None);
    assert_eq!(map.place("n"), 3);
}

fn time(text: &str) -> (Timestamp, chrono::NaiveDateTime) {
    let naive = text.parse::<chrono::NaiveDateTime>().unwrap();
    let at = naive.and_utc();
    let stamp = Timestamp {
        seconds: at.timestamp(),
        nanos: at.timestamp_subsec_nanos(),
    };
    (stamp, naive)
}

#[test]
fn spans_are_counted_as_the_calendar_counts_them() {
    let times = [
        "2026-08-16T12:00:00",
        "2026-08-16T11:59:59.999999999",
        "1969-12-31T23:59:59.5",
        "1600-02-29T00:00:00",
        "2016-12-31T23:59:60.25",
        "2016-12-31T23:59:59.75",
        "2017-01-01T00:00:00",
        "2015-06-30T23:59:60",
        "2015-06-30T10:00:00",
    ];
    for a in times {
        for b in times {
            let (now, naive_now) = time(a);
            let (then, naive_then) = time(b);
            let span = naive_now - naive_then;
            let expected = span.num_seconds() as i128 * 1_000_000_000 + span.subsec_nanos() as i128;
            assert_eq!(elapsed_nanos(now, then), expected, "{} {}", a, b);
            assert_eq!(now.not_after(then), naive_now <= naive_then);
            let earlier = if naive_now <= naive_then { now } else { then };
            let later = if naive_now <= naive_then { then } else { now };
            assert_eq!(now.min(then), earlier);
            assert_eq!(now.max(then), later);
        }
    }
}
