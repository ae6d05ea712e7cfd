//! Downloading waveform data through the SeismiQ FDSN web service.
//!
//! FDSN `dataselect` is what serves the archive, so it is what a historical
//! download talks to. The service offers an endpoint that selects streams by
//! sensor UID instead of the usual network and station codes, which is how
//! sensors are named everywhere else here.
use vstd::prelude::*;

use crate::api::SensorRow;
use crate::cli::{Quality, SensorFilter};
use crate::mseed::RecordHeader;
use crate::number::Real;
use crate::order::{is_sort_of, law_sorted_items_ascend, law_sorting_keeps_every_item};
use crate::order::{sort, Alphabetical};
use crate::text::law_a_text_begins_with_what_it_is_put_together_from;
use crate::text::{all_alphanumeric, debug_text, decimal, strip_both, texts};
use crate::text::{find_from, join_texts, law_find_is_first, split_on, stands_at};
use crate::text::{begins_with, is_alphanumeric, law_letters_and_digits, text_le};
use crate::text::{digits_text, has_text, only_alphanumeric, quoted, trim_both, Edge};
use crate::text_map::TextMap;
use crate::text_map::law_changing_a_place_changes_its_key;
use crate::timestamp::{spell_time, time_text, Timestamp, TABLE_FORMAT};

verus! {

/// Where the archive answers; the live view polls the same service.
pub const FDSN_BASE_URL: &'static str = "https://fdsnws.network.quakesaver.net";

/// Long downloads are split into requests of at most this much data.
pub const DEFAULT_CHUNK: &'static str = "1d";

/// What the user asked for, straight off the command line.
#[derive(Debug)]
pub struct Request {
    pub sensors: Vec<String>,
    pub filters: Vec<SensorFilter>,
    pub start: Option<String>,
    pub end: Option<String>,
    pub duration: Option<String>,
    pub output: String,
    pub quality: Quality,
    /// The length in seconds below which segments are dropped.
    pub minimum_length: Real,
    pub longest_only: bool,
    pub chunk: Option<String>,
}

/// A text is a sensor UID: letters and digits, and at least one.
pub open spec fn is_uid(text: Seq<char>) -> bool {
    text.len() > 0 && all_alphanumeric(text)
}

/// What is wrong with a text that is no sensor UID.
pub open spec fn uid_fault(text: Seq<char>) -> Seq<char> {
    debug_text(text) + " is not a sensor UID, expected letters and digits only"@
}

/// A UID is at least one character, and each is one of the ten digits or of the
/// letters of the alphabet in either case; so it holds no comma.
pub proof fn law_uids_are_letters_and_digits(text: Seq<char>)
    ensures
        is_uid(text) <==> text.len() >= 1 && forall|i: int|
            0 <= i < text.len() ==> 0x30 <= (#[trigger] text[i]) as u32 <= 0x39 || 0x41
                <= text[i] as u32 <= 0x5a || 0x61 <= text[i] as u32 <= 0x7a,
        is_uid(text) ==> !text.contains(','),
{
    if forall|i: int|
        0 <= i < text.len() ==> 0x30 <= (#[trigger] text[i]) as u32 <= 0x39 || 0x41
            <= text[i] as u32 <= 0x5a || 0x61 <= text[i] as u32 <= 0x7a {
        assert forall|i: int| 0 <= i < text.len() implies is_alphanumeric(#[trigger] text[i]) by {
            law_letters_and_digits(text[i]);
        }
    }
    if all_alphanumeric(text) {
        assert forall|i: int| 0 <= i < text.len() implies 0x30 <= (#[trigger] text[i]) as u32
            <= 0x39 || 0x41 <= text[i] as u32 <= 0x5a || 0x61 <= text[i] as u32 <= 0x7a by {
            law_letters_and_digits(text[i]);
        }
    }
}

/// What is wrong with a text quotes it, and goes on the same for every text.
pub proof fn law_a_fault_quotes_the_text(one: Seq<char>, other: Seq<char>)
    ensures
        begins_with(uid_fault(one), debug_text(one)),
        uid_fault(one).skip(debug_text(one).len() as int) == uid_fault(other).skip(
            debug_text(other).len() as int,
        ),
{
    let rest = " is not a sensor UID, expected letters and digits only"@;
    law_a_text_begins_with_what_it_is_put_together_from(uid_fault(one), debug_text(one), rest);
    assert(uid_fault(one).skip(debug_text(one).len() as int) =~= rest);
    assert(uid_fault(other).skip(debug_text(other).len() as int) =~= rest);
}

/// The UID spelling the FDSN endpoint accepts; it joins UIDs with commas, so a
/// UID may only be letters and digits.
pub fn check_uid(uid: &str) -> (r: Result<(), String>)
    ensures
        is_uid(uid@) ==> r is Ok,
        !is_uid(uid@) ==> (r matches Err(e) && e@ == uid_fault(uid@)),
{
    if uid.is_empty() || !only_alphanumeric(uid) {
        let mut text = quoted(uid);
        text.append(" is not a sensor UID, expected letters and digits only");
        return Err(text);
    }
    Ok(())
}

/// The UIDs that the texts name, each once and in the order in which they are
/// first named; or what is wrong with the first text that names none.
pub open spec fn named_uids(named: Seq<Seq<char>>) -> Result<Seq<Seq<char>>, Seq<char>>
    decreases named.len(),
{
    if named.len() == 0 {
        Ok(Seq::empty())
    } else {
        let uid = strip_both(named.last(), Edge::White);
        match named_uids(named.drop_last()) {
            Err(fault) => Err(fault),
            Ok(uids) => if !is_uid(uid) {
                Err(uid_fault(uid))
            } else if uids.contains(uid) {
                Ok(uids)
            } else {
                Ok(uids.push(uid))
            },
        }
    }
}

/// The UIDs that a request names, or why it selects no sensor.
pub open spec fn requested_uids(named: Seq<Seq<char>>, filtered: bool) -> Result<
    Seq<Seq<char>>,
    Seq<char>,
> {
    match named_uids(named) {
        Err(fault) => Err(fault),
        Ok(uids) => if uids.len() == 0 && !filtered {
            Err("no sensors selected, name them with --sensor or pick them with --filter"@)
        } else {
            Ok(uids)
        },
    }
}

/// One text that names no UID spoils all that follow.
proof fn lemma_fault_stays(named: Seq<Seq<char>>, i: int)
    requires
        0 <= i <= named.len(),
        named_uids(named.take(i)) is Err,
    ensures
        named_uids(named) == named_uids(named.take(i)),
    decreases named.len() - i,
{
    if i == named.len() {
        assert(named.take(i) == named);
    } else {
        assert(named.take(i + 1).drop_last() == named.take(i));
        lemma_fault_stays(named, i + 1);
    }
}

/// The UIDs named by the user, checked over before anything reaches the
/// network.
pub fn named_sensors(request: &Request) -> (r: Result<Vec<String>, String>)
    ensures
        match requested_uids(texts(request.sensors@), request.filters@.len() > 0) {
            Ok(uids) => r matches Ok(list) && texts(list@) == uids,
            Err(fault) => r matches Err(e) && e@ == fault,
        },
        r matches Ok(list) ==> forall|i: int|
            0 <= i < request.sensors@.len() ==> texts(list@).contains(
                strip_both((#[trigger] request.sensors@[i])@, Edge::White),
            ),
{
    let ghost named = texts(request.sensors@);
    let mut uids: Vec<String> = Vec::new();
    let mut i: usize = 0;
    assert(texts(uids@) =~= Seq::<Seq<char>>::empty());
    while i < request.sensors.len()
        invariant
            i <= request.sensors@.len(),
            named == texts(request.sensors@),
            named_uids(named.take(i as int)) == Ok::<Seq<Seq<char>>, Seq<char>>(texts(uids@)),
        decreases request.sensors@.len() - i,
    {
        let ghost seen = named.take(i + 1);
        proof {
            assert(seen.drop_last() == named.take(i as int));
            assert(seen.last() == request.sensors@[i as int]@);
        }
        let uid = trim_both(request.sensors[i].as_str(), Edge::White);
        if let Err(fault) = check_uid(uid.as_str()) {
            proof {
                lemma_fault_stays(named, i + 1);
            }
            return Err(fault);
        }
        if !has_text(&uids, uid.as_str()) {
            let ghost had = uids@;
            uids.push(uid);
            assert(texts(uids@) =~= texts(had).push(uid@));
        }
        i += 1;
    }
    assert(named.take(i as int) == named);
    if uids.len() == 0 && request.filters.len() == 0 {
        return Err(
            "no sensors selected, name them with --sensor or pick them with --filter".to_string(),
        );
    }
    proof {
        law_named_sensors_are_usable(named);
        assert forall|i: int| 0 <= i < request.sensors@.len() implies texts(uids@).contains(
            strip_both((#[trigger] request.sensors@[i])@, Edge::White),
        ) by {
            assert(named[i] == request.sensors@[i]@);
        }
    }
    Ok(uids)
}

/// The UIDs already named, and after them those of the rows that are new; a row
/// whose UID the endpoint would not accept is left out.
pub open spec fn with_selected(uids: Seq<Seq<char>>, rows: Seq<SensorRow>) -> Seq<Seq<char>>
    decreases rows.len(),
{
    if rows.len() == 0 {
        uids
    } else {
        let before = with_selected(uids, rows.drop_last());
        let uid = rows.last().uid@;
        if !is_uid(uid) || before.contains(uid) {
            before
        } else {
            before.push(uid)
        }
    }
}

/// The list holds the given texts in alphabetical order.
pub open spec fn lists_in_order(list: Seq<String>, all: Seq<Seq<char>>) -> bool {
    exists|found: Seq<String>|
        texts(found) == all && #[trigger] is_sort_of(found, list, Alphabetical)
}

/// Add the sensors that the filters picked to the ones already named. Without a
/// filter no row was picked.
pub fn resolve_sensors(uids: Vec<String>, rows: &Vec<SensorRow>) -> (r: Result<
    Vec<String>,
    String,
>)
    ensures
        ({
            let all = with_selected(texts(uids@), rows@);
            if all.len() == 0 {
                r matches Err(e) && e@ == "no sensors matched the selected filters"@
            } else {
                r matches Ok(list) && lists_in_order(list@, all)
            }
        }),
{
    let ghost named = texts(uids@);
    let mut all = uids;
    let mut i: usize = 0;
    while i < rows.len()
        invariant
            i <= rows@.len(),
            texts(all@) == with_selected(named, rows@.take(i as int)),
        decreases rows@.len() - i,
    {
        let ghost seen = rows@.take(i + 1);
        proof {
            assert(seen.drop_last() == rows@.take(i as int));
            assert(seen.last() == rows@[i as int]);
        }
        let uid = rows[i].uid.as_str();
        if check_uid(uid).is_ok() && !has_text(&all, uid) {
            let ghost had = all@;
            all.push(uid.to_string());
            assert(texts(all@) =~= texts(had).push(uid@));
        }
        i += 1;
    }
    assert(rows@.take(i as int) == rows@);
    if all.len() == 0 {
        return Err("no sensors matched the selected filters".to_string());
    }
    let ghost found = all@;
    sort(&mut all, &Alphabetical);
    proof {
        assert(texts(found) == with_selected(named, rows@));
        assert(texts(found).len() > 0);
        assert(is_sort_of(found, all@, Alphabetical));
        assert(lists_in_order(all@, with_selected(named, rows@)));
    }
    Ok(all)
}

/// What to say of the picked sensors that are left out, in the order of the
/// rows.
pub open spec fn unusable_notes(rows: Seq<SensorRow>) -> Seq<Seq<char>>
    decreases rows.len(),
{
    if rows.len() == 0 {
        Seq::empty()
    } else {
        let before = unusable_notes(rows.drop_last());
        let uid = rows.last().uid@;
        if is_uid(uid) {
            before
        } else {
            before.push("skipping sensor with an unusable UID "@ + debug_text(uid))
        }
    }
}

/// What to say of the picked sensors that are left out, since the endpoint
/// would not accept their UIDs.
pub fn unusable_sensors(rows: &Vec<SensorRow>) -> (notes: Vec<String>)
    ensures
        texts(notes@) == unusable_notes(rows@),
{
    let mut notes: Vec<String> = Vec::new();
    let mut i: usize = 0;
    assert(texts(notes@) =~= Seq::empty());
    while i < rows.len()
        invariant
            i <= rows@.len(),
            texts(notes@) == unusable_notes(rows@.take(i as int)),
        decreases rows@.len() - i,
    {
        assert(rows@.take(i + 1).drop_last() =~= rows@.take(i as int));
        let ghost had = notes@;
        let uid = rows[i].uid.as_str();
        if check_uid(uid).is_err() {
            let mut note = "skipping sensor with an unusable UID ".to_string();
            let shown = quoted(uid);
            note.append(shown.as_str());
            notes.push(note);
            assert(texts(notes@) =~= texts(had).push(note@));
        }
        i += 1;
    }
    assert(rows@.take(i as int) =~= rows@);
    notes
}

/// Each text is a UID, and none stands twice.
pub open spec fn usable(uids: Seq<Seq<char>>) -> bool {
    &&& forall|i: int| 0 <= i < uids.len() ==> is_uid(#[trigger] uids[i])
    &&& uids.no_duplicates()
}

/// What a request names are UIDs, each once, and every sensor named is among
/// them.
pub proof fn law_named_sensors_are_usable(named: Seq<Seq<char>>)
    ensures
        named_uids(named) matches Ok(uids) ==> usable(uids) && forall|i: int|
            0 <= i < named.len() ==> uids.contains(strip_both(#[trigger] named[i], Edge::White)),
    decreases named.len(),
{
    if named.len() > 0 {
        let front = named.drop_last();
        law_named_sensors_are_usable(front);
        if let Ok(uids) = named_uids(named) {
            let had = named_uids(front)->Ok_0;
            let uid = strip_both(named.last(), Edge::White);
            assert forall|i: int| 0 <= i < named.len() implies uids.contains(
                strip_both(#[trigger] named[i], Edge::White),
            ) by {
                if i < front.len() {
                    assert(front[i] == named[i]);
                    let k = choose|k: int|
                        0 <= k < had.len() && had[k] == strip_both(named[i], Edge::White);
                    assert(uids[k] == had[k]);
                } else if !had.contains(uid) {
                    assert(uids[had.len() as int] == uid);
                }
            }
        }
    }
}

/// What a request names it gets, whether or not it has filters too: each sensor
/// named is on the list, without the white space around it; whatever is on the
/// list was named, is a UID and stands once.
pub proof fn law_what_is_named_is_requested(named: Seq<Seq<char>>, filtered: bool)
    ensures
        requested_uids(named, filtered) matches Ok(uids) ==> {
            &&& forall|i: int|
                0 <= i < named.len() ==> uids.contains(
                    strip_both(#[trigger] named[i], Edge::White),
                )
            &&& forall|k: int|
                0 <= k < uids.len() ==> is_uid(#[trigger] uids[k]) && exists|i: int|
                    0 <= i < named.len() && strip_both(#[trigger] named[i], Edge::White) == uids[k]
            &&& uids.no_duplicates()
        },
        named.len() > 0 ==> requested_uids(named, true) == requested_uids(named, false),
        named.len() == 0 ==> requested_uids(named, true) == Ok::<Seq<Seq<char>>, Seq<char>>(
            Seq::empty(),
        ),
{
    law_named_sensors_are_usable(named);
    if let Ok(uids) = named_uids(named) {
        assert forall|k: int| 0 <= k < uids.len() implies is_uid(#[trigger] uids[k]) && exists|
            i: int,
        |
            0 <= i < named.len() && strip_both(#[trigger] named[i], Edge::White) == uids[k] by {
            lemma_listed_was_named(named, k);
        }
        if named.len() > 0 {
            let first = strip_both(named[0], Edge::White);
            assert(uids.contains(first));
        }
    }
}

proof fn lemma_listed_was_named(named: Seq<Seq<char>>, k: int)
    requires
        named_uids(named) is Ok,
        0 <= k < named_uids(named)->Ok_0.len(),
    ensures
        exists|i: int|
            0 <= i < named.len() && strip_both(#[trigger] named[i], Edge::White) == named_uids(
                named,
            )->Ok_0[k],
    decreases named.len(),
{
    let front = named.drop_last();
    let had = named_uids(front)->Ok_0;
    if k < had.len() {
        lemma_listed_was_named(front, k);
        let i = choose|i: int|
            0 <= i < front.len() && strip_both(#[trigger] front[i], Edge::White) == had[k];
        assert(strip_both(named[i], Edge::White) == had[k]);
    } else {
        assert(strip_both(named[named.len() - 1], Edge::White) == named_uids(named)->Ok_0[k]);
    }
}

/// Sensors are listed in the order in which they are first named: naming more
/// of them adds to the end of the list. A request is refused exactly if one of
/// the texts is no UID, and for the first of those, or if it asks for nothing.
pub proof fn law_sensors_are_listed_as_they_are_named(
    front: Seq<Seq<char>>,
    next: Seq<char>,
    back: Seq<Seq<char>>,
    filtered: bool,
)
    requires
        named_uids(front) is Ok,
    ensures
        !is_uid(strip_both(next, Edge::White)) ==> requested_uids(
            front + seq![next] + back,
            filtered,
        ) == Err::<Seq<Seq<char>>, Seq<char>>(uid_fault(strip_both(next, Edge::White))),
        is_uid(strip_both(next, Edge::White)) ==> requested_uids(front + seq![next], filtered)
            == Ok::<Seq<Seq<char>>, Seq<char>>(
            if named_uids(front)->Ok_0.contains(strip_both(next, Edge::White)) {
                named_uids(front)->Ok_0
            } else {
                named_uids(front)->Ok_0 + seq![strip_both(next, Edge::White)]
            },
        ),
        named_uids(Seq::empty()) == Ok::<Seq<Seq<char>>, Seq<char>>(Seq::empty()),
        requested_uids(front, filtered) is Err ==> front.len() == 0 && !filtered,
{
    let uid = strip_both(next, Edge::White);
    let more = front + seq![next];
    assert(more.drop_last() =~= front);
    assert(more.last() == next);
    if is_uid(uid) {
        assert(named_uids(front)->Ok_0.push(uid) =~= named_uids(front)->Ok_0 + seq![uid]);
    } else {
        let all = more + back;
        assert(all.take(more.len() as int) =~= more);
        lemma_fault_stays(all, more.len() as int);
    }
    law_what_is_named_is_requested(front, filtered);
    if named_uids(front)->Ok_0.len() == 0 && front.len() > 0 {
        law_named_sensors_are_usable(front);
        assert(named_uids(front)->Ok_0.contains(strip_both(front[0], Edge::White)));
    }
}

/// A request that names no sensor and picks none by filter is refused, so a
/// stray command cannot start pulling the whole fleet.
pub proof fn law_some_sensor_must_be_selected(named: Seq<Seq<char>>)
    ensures
        named.len() == 0 ==> requested_uids(named, false) is Err,
        requested_uids(named, false) matches Ok(uids) ==> uids.len() > 0,
{
}

/// Adding the sensors that the filters picked keeps the list usable and all
/// that was on it, and every picked sensor with a usable UID is on it.
pub proof fn law_selected_sensors_are_added(uids: Seq<Seq<char>>, rows: Seq<SensorRow>)
    requires
        usable(uids),
    ensures
        usable(with_selected(uids, rows)),
        forall|i: int| 0 <= i < uids.len() ==> with_selected(uids, rows).contains(#[trigger] uids[i]),
        forall|i: int|
            0 <= i < rows.len() && is_uid((#[trigger] rows[i]).uid@) ==> with_selected(
                uids,
                rows,
            ).contains(rows[i].uid@),
    decreases rows.len(),
{
    let all = with_selected(uids, rows);
    if rows.len() == 0 {
        assert forall|i: int| 0 <= i < uids.len() implies all.contains(#[trigger] uids[i]) by {
            assert(all[i] == uids[i]);
        }
    } else {
        let front = rows.drop_last();
        law_selected_sensors_are_added(uids, front);
        let had = with_selected(uids, front);
        let uid = rows.last().uid@;
        assert forall|text: Seq<char>| had.contains(text) implies all.contains(text) by {
            let k = choose|k: int| 0 <= k < had.len() && had[k] == text;
            assert(all[k] == text);
        }
        assert forall|i: int|
            0 <= i < rows.len() && is_uid((#[trigger] rows[i]).uid@) implies all.contains(
            rows[i].uid@,
        ) by {
            if i < front.len() {
                assert(front[i] == rows[i]);
            } else if !had.contains(uid) {
                assert(all[had.len() as int] == uid);
            }
        }
    }
}

/// On the list is what was named and what the filters picked with a usable UID,
/// and nothing else.
pub proof fn law_only_named_and_selected_sensors_are_listed(
    uids: Seq<Seq<char>>,
    rows: Seq<SensorRow>,
    text: Seq<char>,
)
    ensures
        with_selected(uids, rows).contains(text) <==> uids.contains(text) || (is_uid(text)
            && exists|i: int| 0 <= i < rows.len() && (#[trigger] rows[i]).uid@ == text),
        with_selected(uids, rows).take(uids.len() as int) == uids,
        uids.len() <= with_selected(uids, rows).len(),
    decreases rows.len(),
{
    let all = with_selected(uids, rows);
    if rows.len() == 0 {
        assert(all.take(uids.len() as int) =~= uids);
    } else {
        let front = rows.drop_last();
        let had = with_selected(uids, front);
        law_only_named_and_selected_sensors_are_listed(uids, front, text);
        assert(all.take(uids.len() as int) =~= had.take(uids.len() as int));
        assert(rows[rows.len() - 1] == rows.last());
        if had.contains(text) {
            let k = choose|k: int| 0 <= k < had.len() && had[k] == text;
            assert(all[k] == text);
        }
        if exists|i: int| 0 <= i < front.len() && (#[trigger] front[i]).uid@ == text {
            let i = choose|i: int| 0 <= i < front.len() && (#[trigger] front[i]).uid@ == text;
            assert(rows[i].uid@ == text);
        }
        if exists|i: int| 0 <= i < rows.len() && (#[trigger] rows[i]).uid@ == text {
            let i = choose|i: int| 0 <= i < rows.len() && (#[trigger] rows[i]).uid@ == text;
            if i < front.len() {
                assert(front[i].uid@ == text);
            } else if is_uid(text) && !had.contains(text) {
                assert(all[had.len() as int] == text);
            }
        }
        if all.contains(text) && !had.contains(text) {
            let k = choose|k: int| 0 <= k < all.len() && all[k] == text;
            if k < had.len() {
                assert(had[k] == text);
            }
        }
    }
}

/// The list that is downloaded holds what was named and selected, and nothing
/// else, in alphabetical order.
pub proof fn law_the_list_is_alphabetical(list: Seq<String>, all: Seq<Seq<char>>)
    requires
        lists_in_order(list, all),
    ensures
        list.len() == all.len(),
        forall|i: int, j: int| 0 <= i < j < list.len() ==> text_le(list[i]@, list[j]@),
        forall|text: Seq<char>| texts(list).contains(text) <==> all.contains(text),
{
    let found = choose|found: Seq<String>|
        texts(found) == all && #[trigger] is_sort_of(found, list, Alphabetical);
    law_sorting_keeps_every_item(found, list, Alphabetical);
    assert forall|i: int, j: int| 0 <= i < j < list.len() implies text_le(
        list[i]@,
        list[j]@,
    ) by {
        law_sorted_items_ascend(found, list, Alphabetical, i, j);
    }
    assert forall|text: Seq<char>| texts(list).contains(text) <==> all.contains(text) by {
        if texts(list).contains(text) {
            let i = choose|i: int| 0 <= i < list.len() && texts(list)[i] == text;
            assert(list.contains(list[i]));
            let k = choose|k: int| 0 <= k < found.len() && found[k] == list[i];
            assert(texts(found)[k] == text);
        }
        if all.contains(text) {
            let k = choose|k: int| 0 <= k < all.len() && all[k] == text;
            assert(found.contains(found[k]));
            let i = choose|i: int| 0 <= i < list.len() && list[i] == found[k];
            assert(texts(list)[i] == text);
        }
    }
}

/// Of two lists of picked sensors one after the other, the same is said as of
/// each; of one sensor something is said exactly if its UID is not usable, and
/// that quotes it.
pub proof fn law_unusable_sensors_are_named(
    front: Seq<SensorRow>,
    back: Seq<SensorRow>,
    row: SensorRow,
)
    ensures
        unusable_notes(front + back) == unusable_notes(front) + unusable_notes(back),
        is_uid(row.uid@) ==> unusable_notes(seq![row]).len() == 0,
        !is_uid(row.uid@) ==> unusable_notes(seq![row]) == seq![
            "skipping sensor with an unusable UID "@ + debug_text(row.uid@),
        ],
    decreases back.len(),
{
    let all = front + back;
    assert(seq![row].drop_last() =~= seq![]);
    assert(unusable_notes(seq![]) =~= seq![]);
    if back.len() == 0 {
        assert(all =~= front);
        assert(back =~= seq![]);
    } else {
        assert(all.drop_last() =~= front + back.drop_last());
        law_unusable_sensors_are_named(front, back.drop_last(), row);
    }
    assert(unusable_notes(all) =~= unusable_notes(front) + unusable_notes(back));
    let alone = unusable_notes(seq![row]);
    if alone.len() == 1 {
        assert(alone =~= seq![alone[0]]);
    }
}

/// A text put in front with a mark between becomes the first piece, where it
/// does not hold the mark itself.
proof fn lemma_split_front(front: Seq<char>, rest: Seq<char>)
    requires
        !front.contains(','),
    ensures
        split_on(front + ","@ + rest, ","@) == seq![front] + split_on(rest, ","@),
{
    reveal_strlit(",");
    let mark = ","@;
    let text = front + mark + rest;
    let n = front.len() as int;
    assert(text.subrange(n, n + 1) =~= mark);
    assert forall|j: int| 0 <= j < n implies !stands_at(text, mark, j) by {
        if stands_at(text, mark, j) {
            assert(text.subrange(j, j + 1)[0] == ',');
            assert(front[j] == ',');
        }
    }
    law_find_is_first(text, mark, 0);
    assert(stands_at(text, mark, n));
    assert(find_from(text, mark, 0) == Some(n));
    assert(text.take(n) =~= front);
    assert(text.skip(n + 1) =~= rest);
}

proof fn lemma_split_whole(text: Seq<char>)
    requires
        !text.contains(','),
    ensures
        split_on(text, ","@) == seq![text],
{
    reveal_strlit(",");
    let mark = ","@;
    law_find_is_first(text, mark, 0);
    if let Some(i) = find_from(text, mark, 0) {
        assert(text.subrange(i, i + 1)[0] == ',');
        assert(text[i] == ',');
    }
}

/// Joining can be read from the front.
proof fn lemma_join_front(parts: Seq<Seq<char>>, mark: Seq<char>)
    requires
        parts.len() >= 2,
    ensures
        join_texts(parts, mark) == parts[0] + mark + join_texts(parts.skip(1), mark),
    decreases parts.len(),
{
    if parts.len() == 2 {
        assert(join_texts(parts.drop_last(), mark) == parts[0]);
        assert(join_texts(parts.skip(1), mark) == parts[1]);
    } else {
        lemma_join_front(parts.drop_last(), mark);
        assert(parts.drop_last().skip(1) == parts.skip(1).drop_last());
        assert(join_texts(parts, mark) =~= parts[0] + mark + join_texts(parts.skip(1), mark));
    }
}

/// The service reads the UIDs back out of the list it is sent as they were put
/// in: no UID can smuggle in another sensor.
pub proof fn law_joined_uids_are_read_back(uids: Seq<Seq<char>>)
    requires
        uids.len() > 0,
        forall|i: int| 0 <= i < uids.len() ==> is_uid(#[trigger] uids[i]),
    ensures
        split_on(join_texts(uids, ","@), ","@) == uids,
    decreases uids.len(),
{
    assert(!uids[0].contains(','));
    if uids.len() == 1 {
        lemma_split_whole(uids[0]);
        assert(uids =~= seq![uids[0]]);
    } else {
        lemma_join_front(uids, ","@);
        assert forall|i: int| 0 <= i < uids.skip(1).len() implies is_uid(
            #[trigger] uids.skip(1)[i],
        ) by {
            assert(is_uid(uids[i + 1]));
        }
        law_joined_uids_are_read_back(uids.skip(1));
        lemma_split_front(uids[0], join_texts(uids.skip(1), ","@));
        assert(uids =~= seq![uids[0]] + uids.skip(1));
    }
}

/// What arrived of one stream, for the closing summary.
#[derive(Clone, Copy, Debug, PartialEq, Eq, Structural)]
pub struct StreamTally {
    pub records: usize,
    pub bytes: usize,
    /// The earliest start of a record.
    pub first: Option<Timestamp>,
    /// The latest start of a record.
    pub last: Option<Timestamp>,
}

impl Default for StreamTally {
    fn default() -> (r: Self)
        ensures
            r == empty_tally(),
    {
        StreamTally { records: 0, bytes: 0, first: None, last: None }
    }
}

/// The tally of a stream of which nothing arrived.
pub open spec fn empty_tally() -> StreamTally {
    StreamTally { records: 0, bytes: 0, first: None, last: None }
}

impl StreamTally {
    /// There is room to count another record of the given length.
    pub open spec fn room_for(self, bytes: usize) -> bool {
        self.records < usize::MAX && self.bytes + bytes <= usize::MAX
    }

    /// The tally with another record in it.
    pub open spec fn with(self, start: Timestamp, bytes: usize) -> StreamTally {
        StreamTally {
            records: (self.records + 1) as usize,
            bytes: (self.bytes + bytes) as usize,
            first: Some(
                match self.first {
                    Some(first) => first.earliest(start),
                    None => start,
                },
            ),
            last: Some(
                match self.last {
                    Some(last) => last.latest(start),
                    None => start,
                },
            ),
        }
    }

    /// Counts another record.
    pub fn add(&mut self, header: &RecordHeader, bytes: usize)
        requires
            old(self).room_for(bytes),
        ensures
            *final(self) == old(self).with(header.start, bytes),
    {
        self.records = self.records + 1;
        self.bytes = self.bytes + bytes;
        self.first = Some(
            match self.first {
                Some(first) => first.min(header.start),
                None => header.start,
            },
        );
        self.last = Some(
            match self.last {
                Some(last) => last.max(header.start),
                None => header.start,
            },
        );
    }
}

/// Another record adds one to the records and its length to the bytes, and
/// widens the span so far as it must.
pub proof fn law_a_record_is_counted_once(tally: StreamTally, start: Timestamp, bytes: usize)
    ensures
        tally.room_for(bytes) <==> tally.records + 1 <= usize::MAX && tally.bytes + bytes
            <= usize::MAX,
        tally.room_for(bytes) ==> tally.with(start, bytes).records == tally.records + 1
            && tally.with(start, bytes).bytes == tally.bytes + bytes,
        tally.with(start, bytes).first == Some(
            match tally.first {
                Some(first) => if start.seconds < first.seconds || (start.seconds == first.seconds
                    && start.nanos < first.nanos) {
                    start
                } else {
                    first
                },
                None => start,
            },
        ),
        tally.with(start, bytes).last == Some(
            match tally.last {
                Some(last) => if last.seconds < start.seconds || (last.seconds == start.seconds
                    && last.nanos < start.nanos) {
                    start
                } else {
                    last
                },
                None => start,
            },
        ),
        empty_tally().records == 0 && empty_tally().bytes == 0 && empty_tally().first is None
            && empty_tally().last is None,
{
}

/// The tally of the given records, by their starts and lengths.
pub open spec fn tallied(records: Seq<(Timestamp, usize)>) -> StreamTally
    decreases records.len(),
{
    if records.len() == 0 {
        empty_tally()
    } else {
        let (start, bytes) = records.last();
        tallied(records.drop_last()).with(start, bytes)
    }
}

/// A tally spans exactly the records it counted: from the start of one of them
/// to the start of one of them, and every start lies between.
pub proof fn law_a_tally_tracks_the_span_it_saw(records: Seq<(Timestamp, usize)>)
    ensures
        records.len() == 0 ==> tallied(records).first is None && tallied(records).last is None,
        records.len() > 0 ==> (tallied(records).first matches Some(first) && tallied(
            records,
        ).last matches Some(last) && (exists|i: int|
            0 <= i < records.len() && (#[trigger] records[i]).0 == first) && (exists|i: int|
            0 <= i < records.len() && (#[trigger] records[i]).0 == last) && forall|i: int|
            0 <= i < records.len() ==> first.le((#[trigger] records[i]).0) && records[i].0.le(
                last,
            )),
    decreases records.len(),
{
    if records.len() > 0 {
        let front = records.drop_last();
        law_a_tally_tracks_the_span_it_saw(front);
        let n = front.len() as int;
        assert(records[n] == records.last());
        if front.len() > 0 {
            let a = choose|i: int|
                0 <= i < front.len() && (#[trigger] front[i]).0 == tallied(front).first->0;
            let b = choose|i: int|
                0 <= i < front.len() && (#[trigger] front[i]).0 == tallied(front).last->0;
            assert(records[a] == front[a] && records[b] == front[b]);
            assert forall|i: int| 0 <= i < records.len() implies tallied(records).first->0.le(
                (#[trigger] records[i]).0,
            ) && records[i].0.le(tallied(records).last->0) by {
                if i < n {
                    assert(front[i] == records[i]);
                }
            }
        }
    }
}

/// A tally counts every record once and adds up all their bytes, however the
/// records follow on each other.
pub proof fn law_a_tally_adds_up(front: Seq<(Timestamp, usize)>, start: Timestamp, bytes: usize)
    requires
        tallied(front).room_for(bytes),
    ensures
        tallied(front.push((start, bytes))).records == tallied(front).records + 1,
        tallied(front.push((start, bytes))).bytes == tallied(front).bytes + bytes,
        tallied(Seq::empty()).records == 0 && tallied(Seq::empty()).bytes == 0,
{
    assert(front.push((start, bytes)).drop_last() =~= front);
}

/// The endpoint that selects streams by sensor UID.
pub open spec fn endpoint() -> Seq<char> {
    FDSN_BASE_URL@ + "/fdsnws/dataselect/1/queryauth_jwt_by_id"@
}

/// The endpoint is that of the service under its address.
pub proof fn law_where_the_archive_answers()
    ensures
        endpoint()
            == "https://fdsnws.network.quakesaver.net/fdsnws/dataselect/1/queryauth_jwt_by_id"@,
{
    reveal_strlit("https://fdsnws.network.quakesaver.net");
    reveal_strlit("/fdsnws/dataselect/1/queryauth_jwt_by_id");
    reveal_strlit(
        "https://fdsnws.network.quakesaver.net/fdsnws/dataselect/1/queryauth_jwt_by_id",
    );
    assert(endpoint()
        =~= "https://fdsnws.network.quakesaver.net/fdsnws/dataselect/1/queryauth_jwt_by_id"@);
}

/// The endpoint that selects streams by sensor UID.
pub fn dataselect_url() -> (url: String)
    ensures
        url@ == endpoint(),
{
    let mut url = FDSN_BASE_URL.to_string();
    url.append("/fdsnws/dataselect/1/queryauth_jwt_by_id");
    url
}

/// A query by the names and the values of its parameters.
pub open spec fn query_view(query: Seq<(&'static str, String)>) -> Seq<(Seq<char>, Seq<char>)> {
    query.map_values(|pair: (&'static str, String)| (pair.0@, pair.1@))
}

/// A query is read parameter by parameter, in order.
pub proof fn law_a_query_is_its_parameters(query: Seq<(&'static str, String)>)
    ensures
        query_view(query).len() == query.len(),
        forall|i: int|
            0 <= i < query.len() ==> #[trigger] query_view(query)[i] == (query[i].0@, query[i].1@),
{
}

fn yes_or_no(answer: bool) -> (r: &'static str)
    ensures
        r@ == (if answer {
            "true"@
        } else {
            "false"@
        }),
{
    if answer {
        "true"
    } else {
        "false"
    }
}

/// What to ask the archive for in one window of a download. The times and the
/// minimum length are given as the service spells them.
pub fn window_query(
    starttime: String,
    endtime: String,
    uids: &str,
    request: &Request,
    minimum_length: String,
) -> (query: Vec<(&'static str, String)>)
    ensures
        query_view(query@) == seq![
            ("starttime"@, starttime@),
            ("endtime"@, endtime@),
            ("sensor_uids"@, uids@),
            ("quality"@, request.quality.code()),
            ("minimumlength"@, minimum_length@),
            (
                "longestonly"@,
                if request.longest_only {
                    "true"@
                } else {
                    "false"@
                },
            ),
            ("format"@, "miniseed"@),
        ],
{
    let mut query: Vec<(&'static str, String)> = Vec::new();
    query.push(("starttime", starttime));
    query.push(("endtime", endtime));
    query.push(("sensor_uids", uids.to_string()));
    query.push(("quality", request.quality.to_text().to_string()));
    query.push(("minimumlength", minimum_length));
    query.push(("longestonly", yes_or_no(request.longest_only).to_string()));
    query.push(("format", "miniseed".to_string()));
    assert(query_view(query@) =~= seq![
        ("starttime"@, starttime@),
        ("endtime"@, endtime@),
        ("sensor_uids"@, uids@),
        ("quality"@, request.quality.code()),
        ("minimumlength"@, minimum_length@),
        (
            "longestonly"@,
            if request.longest_only {
                "true"@
            } else {
                "false"@
            },
        ),
        ("format"@, "miniseed"@),
    ]);
    query
}

/// What the status of an answer means.
#[derive(Clone, Copy, Debug, PartialEq, Eq, Structural)]
pub enum Reply {
    /// Nothing was recorded in the window.
    Nothing,
    /// The account may not read the sensors.
    Refused,
    /// Something else went wrong.
    Failed,
    /// Records follow.
    Records,
}

/// What the status of an answer means.
pub open spec fn reply_of(status: u16) -> Reply {
    if status == 204 {
        Reply::Nothing
    } else if status == 401 || status == 403 {
        Reply::Refused
    } else if 200 <= status < 300 {
        Reply::Records
    } else {
        Reply::Failed
    }
}

/// No content means that nothing was recorded, a request without authority is
/// refused, records follow any other success, and all else is a failure.
pub proof fn law_what_the_statuses_mean(status: u16)
    ensures
        reply_of(status) is Nothing <==> status == 204,
        reply_of(status) is Refused <==> status == 401 || status == 403,
        reply_of(status) is Records <==> status / 100 == 2 && status != 204,
        reply_of(status) is Failed <==> status / 100 != 2 && status != 401 && status != 403,
{
}

/// What the status of an answer means.
pub fn reply_kind(status: u16) -> (r: Reply)
    ensures
        r == reply_of(status),
{
    if status == 204 {
        Reply::Nothing
    } else if status == 401 || status == 403 {
        Reply::Refused
    } else if 200 <= status && status < 300 {
        Reply::Records
    } else {
        Reply::Failed
    }
}

/// What to say where the service refused a window or failed on it. The detail
/// is what it sent along, which is shown without the white space around it.
pub fn window_fault(reply: Reply, status: &str, detail: &str) -> (r: Option<String>)
    ensures
        match reply {
            Reply::Nothing | Reply::Records => r is None,
            Reply::Refused => r matches Some(text) && text@
                == "the FDSN service refused the request ("@ + status@
                + "); check that your account may read these sensors"@,
            Reply::Failed => r matches Some(text) && text@ == "the FDSN service returned "@
                + status@ + (if detail@.len() == 0 {
                Seq::empty()
            } else {
                ": "@ + strip_both(detail@, Edge::White)
            }),
        },
{
    match reply {
        Reply::Nothing | Reply::Records => None,
        Reply::Refused => {
            let mut text = "the FDSN service refused the request (".to_string();
            text.append(status);
            text.append("); check that your account may read these sensors");
            Some(text)
        },
        Reply::Failed => {
            let mut text = "the FDSN service returned ".to_string();
            text.append(status);
            let ghost head = text@;
            if !detail.is_empty() {
                text.append(": ");
                let trimmed = trim_both(detail, Edge::White);
                text.append(trimmed.as_str());
                assert(text@ =~= head + (": "@ + strip_both(detail@, Edge::White)));
            } else {
                assert(text@ =~= head + Seq::<char>::empty());
            }
            Some(text)
        },
    }
}

/// Before when records of a window came with the window before it, if there is
/// one.
pub open spec fn boundary_of(index: int, window_start: Timestamp) -> Option<Timestamp> {
    if index > 0 {
        Some(window_start)
    } else {
        None
    }
}

/// Before when records of a window came with the window before it, if there is
/// one.
pub fn boundary(index: usize, window_start: Timestamp) -> (r: Option<Timestamp>)
    ensures
        r == boundary_of(index as int, window_start),
{
    if index > 0 {
        Some(window_start)
    } else {
        None
    }
}

/// A record came with the window before: it straddles the boundary.
pub open spec fn came_before(skip_before: Option<Timestamp>, start: Timestamp) -> bool {
    skip_before matches Some(at) && !at.le(start)
}

/// A record is written by the window it starts in and by none after it, however
/// many of the windows hand it out.
pub proof fn law_a_record_is_written_by_one_window(
    starts: Seq<Timestamp>,
    at: Timestamp,
    i: int,
    j: int,
)
    requires
        forall|a: int, b: int|
            0 <= a < b < starts.len() ==> (#[trigger] starts[a]).le(#[trigger] starts[b]),
        0 <= i < j < starts.len(),
        starts[i].le(at),
        !starts[i + 1].le(at),
    ensures
        !came_before(boundary_of(i, starts[i]), at),
        came_before(boundary_of(j, starts[j]), at),
{
    if j > i + 1 {
        assert(starts[i + 1].le(starts[j]));
    }
}

/// A record is left to the window before exactly if there is one and the record
/// starts before its own window does; the first window leaves none out, and a
/// record is kept by every window that starts no later than the record.
pub proof fn law_only_a_straddling_record_is_left_out(
    index: int,
    window_start: Timestamp,
    start: Timestamp,
)
    ensures
        came_before(boundary_of(index, window_start), start) <==> index > 0 && (start.seconds
            < window_start.seconds || (start.seconds == window_start.seconds && start.nanos
            < window_start.nanos)),
        !came_before(None, start),
        boundary_of(index, window_start) is Some <==> index > 0,
        boundary_of(index, window_start) matches Some(at) ==> at == window_start,
{
}

/// How many records the tallies count in all.
pub open spec fn records_in(tallies: Seq<StreamTally>) -> int
    decreases tallies.len(),
{
    if tallies.len() == 0 {
        0
    } else {
        records_in(tallies.drop_last()) + tallies.last().records
    }
}

/// The records of two lists of tallies are those of the one and of the other,
/// and one tally alone counts its own.
pub proof fn law_records_add_up(front: Seq<StreamTally>, back: Seq<StreamTally>, tally: StreamTally)
    ensures
        records_in(front + back) == records_in(front) + records_in(back),
        records_in(seq![tally]) == tally.records,
        records_in(Seq::empty()) == 0,
    decreases back.len(),
{
    let all = front + back;
    assert(seq![tally].drop_last() =~= Seq::<StreamTally>::empty());
    assert(records_in(Seq::<StreamTally>::empty()) == 0);
    if back.len() == 0 {
        assert(all =~= front);
    } else {
        assert(all.drop_last() =~= front + back.drop_last());
        law_records_add_up(front, back.drop_last(), tally);
    }
}

proof fn lemma_records_changed(tallies: Seq<StreamTally>, i: int, tally: StreamTally)
    requires
        0 <= i < tallies.len(),
    ensures
        records_in(tallies.update(i, tally)) == records_in(tallies) - tallies[i].records
            + tally.records,
    decreases tallies.len(),
{
    let changed = tallies.update(i, tally);
    if i == tallies.len() - 1 {
        assert(changed.drop_last() =~= tallies.drop_last());
    } else {
        assert(changed.drop_last() =~= tallies.drop_last().update(i, tally));
        lemma_records_changed(tallies.drop_last(), i, tally);
    }
}

proof fn lemma_records_inserted(tallies: Seq<StreamTally>, i: int, tally: StreamTally)
    requires
        0 <= i <= tallies.len(),
    ensures
        records_in(tallies.insert(i, tally)) == records_in(tallies) + tally.records,
    decreases tallies.len(),
{
    let more = tallies.insert(i, tally);
    if i == tallies.len() {
        assert(more.drop_last() =~= tallies);
    } else {
        assert(more.drop_last() =~= tallies.drop_last().insert(i, tally));
        lemma_records_inserted(tallies.drop_last(), i, tally);
    }
}

/// What has been downloaded.
#[derive(Debug)]
pub struct Download {
    pub tallies: TextMap<StreamTally>,
    pub written: usize,
}

impl Download {
    /// The streams are in order, and the records written are those that their
    /// tallies count.
    pub open spec fn well_formed(self) -> bool {
        &&& self.tallies.well_formed()
        &&& self.written == records_in(self.tallies.values())
    }

    /// The tally of a stream.
    pub open spec fn tally(self, stream: Seq<char>) -> StreamTally {
        if self.tallies.map().contains_key(stream) {
            self.tallies.map()[stream]
        } else {
            empty_tally()
        }
    }

    /// There is room to count another record of the given length.
    pub open spec fn room_for(self, stream: Seq<char>, bytes: usize) -> bool {
        self.written < usize::MAX && self.tally(stream).room_for(bytes)
    }

    /// Nothing has been downloaded yet.
    pub fn new() -> (r: Self)
        ensures
            r.well_formed(),
            r.tallies.map() == Map::<Seq<char>, StreamTally>::empty(),
            r.written == 0,
    {
        Download { tallies: TextMap::new(), written: 0 }
    }

    /// Whether there is room to count another record of the given length.
    pub fn has_room(&self, header: &RecordHeader, bytes: usize) -> (r: bool)
        requires
            self.tallies.well_formed(),
        ensures
            r == self.room_for(header.stream(), bytes),
    {
        let stream = header.stream_id();
        let tally = match self.tallies.find(stream.as_str()) {
            Some(i) => *self.tallies.value(i),
            None => StreamTally::default(),
        };
        self.written < usize::MAX && tally.records < usize::MAX && tally.bytes <= usize::MAX - bytes
    }

    /// Whether a record is to be written, and if so counts it. A record
    /// reaching back before `skip_before` was delivered by the window before,
    /// so it is dropped rather than written twice.
    pub fn accept(
        &mut self,
        header: &RecordHeader,
        bytes: usize,
        skip_before: Option<Timestamp>,
    ) -> (r: bool)
        requires
            old(self).well_formed(),
            came_before(skip_before, header.start) || old(self).room_for(header.stream(), bytes),
        ensures
            final(self).well_formed(),
            r == !came_before(skip_before, header.start),
            !r ==> *final(self) == *old(self),
            r ==> final(self).written == old(self).written + 1 && final(self).tallies.map()
                == old(self).tallies.map().insert(
                header.stream(),
                old(self).tally(header.stream()).with(header.start, bytes),
            ),
    {
        if let Some(at) = skip_before {
            if !at.not_after(header.start) {
                return false;
            }
        }
        let stream = header.stream_id();
        let ghost map = self.tallies.map();
        let ghost before = self.tallies.values();
        let i = self.tallies.ensure(stream.as_str(), StreamTally::default());
        let ghost ready = self.tallies;
        let mut tally: StreamTally = *self.tallies.value(i);
        tally.add(header, bytes);
        *self.tallies.value_mut(i) = tally;
        self.written = self.written + 1;
        proof {
            law_changing_a_place_changes_its_key(ready, self.tallies, i as int, tally);
            assert(self.tallies.map() =~= map.insert(header.stream(), tally));
            if !map.contains_key(header.stream()) {
                lemma_records_inserted(before, i as int, empty_tally());
            }
            lemma_records_changed(ready.values(), i as int, tally);
        }
        true
    }
}

/// A stream of which nothing arrived has counted nothing, and any other what was
/// counted of it; there is room for a record where every count can grow by it.
pub proof fn law_a_stream_has_its_own_tally(
    download: Download,
    stream: Seq<char>,
    bytes: usize,
)
    ensures
        download.tallies.map().contains_key(stream) ==> download.tally(stream)
            == download.tallies.map()[stream],
        !download.tallies.map().contains_key(stream) ==> download.tally(stream).records == 0
            && download.tally(stream).bytes == 0 && download.tally(stream).first is None
            && download.tally(stream).last is None,
        download.room_for(stream, bytes) <==> download.written + 1 <= usize::MAX && download.tally(
            stream,
        ).records + 1 <= usize::MAX && download.tally(stream).bytes + bytes <= usize::MAX,
        download.well_formed() ==> download.written == records_in(download.tallies.values()),
{
}

/// What to say once a download is done.
#[derive(Debug, PartialEq, Eq)]
pub enum Report {
    /// Nothing was available.
    Nothing(&'static str),
    /// Standard output carries the records, so only a line is logged.
    Line(String),
    /// A table of the streams and a line below it.
    Table { header: Vec<&'static str>, rows: Vec<Vec<String>>, summary: String },
}

/// How a time that may be missing is shown.
pub open spec fn shown_time(at: Option<Timestamp>) -> Seq<char> {
    match at {
        Some(time) => match time_text(time, TABLE_FORMAT@) {
            Some(text) => text,
            None => Seq::empty(),
        },
        None => Seq::empty(),
    }
}

/// A time that lies in no leap second has a spelling.
pub open spec fn is_spelled(at: Option<Timestamp>) -> bool {
    at matches Some(time) ==> (time.ordinary() ==> time_text(time, TABLE_FORMAT@) is Some)
}

/// A time on the calendar and in no leap second is spelled where it is shown; one
/// that is missing is not asked for.
pub proof fn law_what_is_spelled(time: Timestamp)
    ensures
        is_spelled(Some(time)) <==> (-8_334_601_228_800 <= time.seconds < 8_210_266_876_800
            && time.nanos < 1_000_000_000 ==> time_text(time, "%Y-%m-%dT%H:%M:%S"@) is Some),
        is_spelled(None),
{
}

fn show_time(at: Option<Timestamp>) -> (text: String)
    ensures
        text@ == shown_time(at),
        is_spelled(at),
{
    match at {
        Some(time) => match spell_time(time, TABLE_FORMAT) {
            Some(text) => text,
            None => String::new(),
        },
        None => String::new(),
    }
}

/// The cells of a stream in the report, its size given in text.
pub open spec fn tally_cells(stream: Seq<char>, tally: StreamTally, kib: Seq<char>) -> Seq<
    Seq<char>,
> {
    seq![
        stream,
        decimal(tally.records as int),
        kib,
        shown_time(tally.first),
        shown_time(tally.last),
    ]
}

/// The line below the table.
pub open spec fn summary_line(
    records: usize,
    streams: nat,
    files: usize,
    output: Seq<char>,
) -> Seq<char> {
    decimal(records as int) + " records in "@ + decimal(streams as int)
        + " stream(s) written to "@ + decimal(files as int) + " file(s) under "@ + output
}

/// A row of the report is the stream, its records, its size and the times of
/// its first and last record, each as it is spelled and blank where it is
/// missing.
pub proof fn law_a_stream_shows_its_tally(stream: Seq<char>, tally: StreamTally, kib: Seq<char>)
    ensures
        tally_cells(stream, tally, kib).len() == 5,
        tally_cells(stream, tally, kib)[0] == stream,
        tally_cells(stream, tally, kib)[1] == decimal(tally.records as int),
        tally_cells(stream, tally, kib)[2] == kib,
        tally.first matches Some(at) ==> (time_text(at, "%Y-%m-%dT%H:%M:%S"@) is None
            ==> tally_cells(stream, tally, kib)[3].len() == 0),
        tally.last matches Some(at) ==> (time_text(at, "%Y-%m-%dT%H:%M:%S"@) is None
            ==> tally_cells(stream, tally, kib)[4].len() == 0),
        tally.first is None ==> tally_cells(stream, tally, kib)[3].len() == 0,
        tally.last is None ==> tally_cells(stream, tally, kib)[4].len() == 0,
        tally.first matches Some(at) ==> (time_text(at, "%Y-%m-%dT%H:%M:%S"@) matches Some(text)
            ==> tally_cells(stream, tally, kib)[3] == text),
        tally.last matches Some(at) ==> (time_text(at, "%Y-%m-%dT%H:%M:%S"@) matches Some(text)
            ==> tally_cells(stream, tally, kib)[4] == text),
{
}

/// The summary gives the records, the streams, the files and where they are, in
/// this order and between words that are the same for every download.
pub proof fn law_the_summary_counts_what_was_written()
    ensures
        exists|a: Seq<char>, b: Seq<char>, c: Seq<char>|
            #![trigger a + b + c]
            forall|records: usize, streams: nat, files: usize, output: Seq<char>| #[trigger]
                summary_line(records, streams, files, output) == decimal(records as int) + a
                    + decimal(streams as int) + b + decimal(files as int) + c + output,
{
    let a = " records in "@;
    let b = " stream(s) written to "@;
    let c = " file(s) under "@;
    let words = a + b + c;
    assert(forall|records: usize, streams: nat, files: usize, output: Seq<char>| #[trigger]
        summary_line(records, streams, files, output) == decimal(records as int) + a + decimal(
            streams as int,
        ) + b + decimal(files as int) + c + output);
}

/// What to say once a download is done. The size of each stream is given in
/// text, in the order of the streams.
pub fn report(
    tallies: &TextMap<StreamTally>,
    sizes: &Vec<String>,
    records: usize,
    files: usize,
    quiet: bool,
    output: &str,
) -> (r: Report)
    requires
        tallies.well_formed(),
        sizes@.len() == tallies.keys().len(),
    ensures
        records == 0 ==> (r matches Report::Nothing(text) && text@
            == "no data was available for the requested sensors and time range"@),
        records > 0 && quiet ==> (r matches Report::Line(text) && text@ == "wrote "@ + decimal(
            records as int,
        ) + " records"@),
        records > 0 && !quiet ==> (r matches Report::Table { header, rows, summary } && header@
            == seq!["STREAM", "RECORDS", "KiB", "FIRST", "LAST"] && rows@.len()
            == tallies.keys().len() && (forall|i: int|
            0 <= i < rows@.len() ==> texts((#[trigger] rows@[i])@) == tally_cells(
                tallies.keys()[i],
                tallies.values()[i],
                sizes@[i]@,
            ) && is_spelled(tallies.values()[i].first) && is_spelled(tallies.values()[i].last))
            && summary@ == summary_line(records, tallies.keys().len(), files, output@)),
{
    if records == 0 {
        return Report::Nothing("no data was available for the requested sensors and time range");
    }
    let total = digits_text(records as u128);
    if quiet {
        let mut text = "wrote ".to_string();
        text.append(total.as_str());
        text.append(" records");
        return Report::Line(text);
    }
    let mut rows: Vec<Vec<String>> = Vec::new();
    let mut i: usize = 0;
    while i < tallies.len()
        invariant
            tallies.well_formed(),
            sizes@.len() == tallies.keys().len(),
            i <= tallies.keys().len(),
            rows@.len() == i,
            forall|j: int|
                0 <= j < i ==> texts((#[trigger] rows@[j])@) == tally_cells(
                    tallies.keys()[j],
                    tallies.values()[j],
                    sizes@[j]@,
                ) && is_spelled(tallies.values()[j].first) && is_spelled(tallies.values()[j].last),
        decreases tallies.keys().len() - i,
    {
        let tally = tallies.value(i);
        let mut cells: Vec<String> = Vec::new();
        cells.push(tallies.key(i).to_string());
        cells.push(digits_text(tally.records as u128));
        cells.push(sizes[i].clone());
        cells.push(show_time(tally.first));
        cells.push(show_time(tally.last));
        assert(texts(cells@) =~= tally_cells(
            tallies.keys()[i as int],
            tallies.values()[i as int],
            sizes@[i as int]@,
        ));
        rows.push(cells);
        i += 1;
    }
    let mut summary = total;
    summary.append(" records in ");
    let streams = digits_text(tallies.len() as u128);
    summary.append(streams.as_str());
    summary.append(" stream(s) written to ");
    let count = digits_text(files as u128);
    summary.append(count.as_str());
    summary.append(" file(s) under ");
    summary.append(output);
    Report::Table { header: vec!["STREAM", "RECORDS", "KiB", "FIRST", "LAST"], rows, summary }
}

} // verus!
