//! Text as sequences of characters: searching, splitting, trimming, ordering
//! and spelling numbers.
use vstd::prelude::*;

verus! {

/// `std::string::String::push`: appends the character to the end of the string.
pub assume_specification[ String::push ](text: &mut String, c: char)
    ensures
        final(text)@ == old(text)@.push(c),
;

/// The characters of a text, in order.
pub fn chars_of(text: &str) -> (chars: Vec<char>)
    ensures
        chars@ == text@,
{
    let mut chars: Vec<char> = Vec::new();
    for c in it: text.chars()
        invariant
            chars@ == it.seq().take(it.index()),
            it.seq() == text@,
    {
        chars.push(c);
    }
    assert(text@.take(text@.len() as int) == text@);
    chars
}

/// The text made of the given characters, from `from` up to `to`.
pub fn text_of(chars: &Vec<char>, from: usize, to: usize) -> (text: String)
    requires
        from <= to <= chars@.len(),
    ensures
        text@ == chars@.subrange(from as int, to as int),
{
    let mut text = String::new();
    let mut i: usize = from;
    while i < to
        invariant
            from <= i <= to <= chars@.len(),
            text@ == chars@.subrange(from as int, i as int),
        decreases to - i,
    {
        text.push(chars[i]);
        i += 1;
        assert(chars@.subrange(from as int, i as int) == chars@.subrange(
            from as int,
            i - 1,
        ).push(chars@[i - 1]));
    }
    text
}

/// `needle` stands in `hay` at position `at`.
pub open spec fn stands_at(hay: Seq<char>, needle: Seq<char>, at: int) -> bool {
    &&& 0 <= at
    &&& at + needle.len() <= hay.len()
    &&& hay.subrange(at, at + needle.len()) == needle
}

/// `needle` stands somewhere in `hay`.
pub open spec fn contains_text(hay: Seq<char>, needle: Seq<char>) -> bool {
    exists|at: int| stands_at(hay, needle, at)
}

/// The first position at or after `from` at which `needle` stands in `hay`.
pub open spec fn find_from(hay: Seq<char>, needle: Seq<char>, from: int) -> Option<int>
    decreases hay.len() + 1 - from,
{
    if from < 0 || from + needle.len() > hay.len() {
        None
    } else if stands_at(hay, needle, from) {
        Some(from)
    } else {
        find_from(hay, needle, from + 1)
    }
}

fn matches_at(hay: &Vec<char>, needle: &Vec<char>, at: usize) -> (r: bool)
    requires
        at + needle@.len() <= hay@.len(),
    ensures
        r == stands_at(hay@, needle@, at as int),
{
    let end: usize = hay.len();
    let mut k: usize = 0;
    while k < needle.len()
        invariant
            k <= needle@.len(),
            at + needle@.len() <= end == hay@.len(),
            forall|j: int| 0 <= j < k ==> hay@[at + j] == needle@[j],
        decreases needle@.len() - k,
    {
        if hay[at + k] != needle[k] {
            assert(hay@.subrange(at as int, at + needle@.len())[k as int] != needle@[k as int]);
            return false;
        }
        k += 1;
    }
    assert(hay@.subrange(at as int, at + needle@.len()) =~= needle@);
    true
}

/// Where `needle` first stands in `hay` at or after `from`.
pub fn find(hay: &Vec<char>, needle: &Vec<char>, from: usize) -> (at: Option<usize>)
    ensures
        at is Some <==> find_from(hay@, needle@, from as int) is Some,
        at matches Some(i) ==> find_from(hay@, needle@, from as int) == Some(i as int),
{
    let mut i: usize = from;
    while i <= hay.len() && needle.len() <= hay.len() - i
        invariant
            from <= i,
            find_from(hay@, needle@, from as int) == find_from(hay@, needle@, i as int),
        decreases hay@.len() + 1 - i,
    {
        if matches_at(hay, needle, i) {
            return Some(i);
        }
        if i == hay.len() {
            assert(hay@.subrange(i as int, i as int) =~= needle@);
            return None;
        }
        i += 1;
    }
    None
}

/// What a search finds is the first place where the needle stands, and it
/// finds nothing only where the needle stands nowhere.
pub proof fn law_find_is_first(hay: Seq<char>, needle: Seq<char>, from: int)
    requires
        0 <= from,
    ensures
        match find_from(hay, needle, from) {
            Some(i) => from <= i && stands_at(hay, needle, i) && (forall|j: int|
                from <= j < i ==> !stands_at(hay, needle, j)),
            None => forall|j: int| from <= j ==> !stands_at(hay, needle, j),
        },
    decreases hay.len() + 1 - from,
{
    if from + needle.len() <= hay.len() && !stands_at(hay, needle, from) {
        law_find_is_first(hay, needle, from + 1);
    }
}

/// A needle is found in every text that is put together around it, and a text
/// in which it stands is put together around it.
pub proof fn law_a_needle_stands_between_what_surrounds_it(
    front: Seq<char>,
    needle: Seq<char>,
    back: Seq<char>,
)
    ensures
        stands_at(front + needle + back, needle, front.len() as int),
        contains_text(front + needle + back, needle),
        forall|hay: Seq<char>, at: int| #[trigger]
            stands_at(hay, needle, at) ==> 0 <= at <= at + needle.len() <= hay.len() && hay
                == hay.take(at) + needle + hay.skip(at + needle.len()),
        forall|hay: Seq<char>|
            contains_text(hay, needle) ==> exists|left: Seq<char>, right: Seq<char>|
                hay == #[trigger] (left + needle + right),
{
    let whole = front + needle + back;
    let n = front.len() as int;
    assert(whole.subrange(n, n + needle.len()) =~= needle);
    assert(stands_at(whole, needle, n));
    assert forall|hay: Seq<char>, at: int| #[trigger] stands_at(hay, needle, at) implies 0 <= at
        <= at + needle.len() <= hay.len() && hay == hay.take(at) + needle + hay.skip(
        at + needle.len(),
    ) by {
        assert(hay =~= hay.take(at) + hay.subrange(at, at + needle.len()) + hay.skip(
            at + needle.len(),
        ));
    }
    assert forall|hay: Seq<char>| contains_text(hay, needle) implies exists|
        left: Seq<char>,
        right: Seq<char>,
    | hay == #[trigger] (left + needle + right) by {
        let at = choose|at: int| stands_at(hay, needle, at);
        assert(hay == hay.take(at) + needle + hay.skip(at + needle.len()));
    }
}

/// Whether `needle` stands anywhere in `hay`.
pub fn contains(hay: &str, needle: &str) -> (r: bool)
    ensures
        r == contains_text(hay@, needle@),
{
    let h = chars_of(hay);
    let n = chars_of(needle);
    let at = find(&h, &n, 0);
    proof {
        law_find_is_first(hay@, needle@, 0);
        if at is None {
            assert forall|i: int| !stands_at(hay@, needle@, i) by {}
        }
    }
    at.is_some()
}

/// `text` begins with `prefix`.
pub open spec fn begins_with(text: Seq<char>, prefix: Seq<char>) -> bool {
    stands_at(text, prefix, 0)
}

/// A text begins with a prefix exactly if it is the prefix and a rest.
pub proof fn law_a_text_begins_with_what_it_is_put_together_from(
    text: Seq<char>,
    prefix: Seq<char>,
    rest: Seq<char>,
)
    ensures
        begins_with(prefix + rest, prefix),
        begins_with(text, prefix) ==> prefix.len() <= text.len() && text == prefix + text.skip(
            prefix.len() as int,
        ),
{
    assert((prefix + rest).subrange(0, prefix.len() as int) =~= prefix);
    if begins_with(text, prefix) {
        assert(text =~= text.subrange(0, prefix.len() as int) + text.skip(prefix.len() as int));
    }
}

/// Whether `text` begins with `prefix`.
pub fn starts_with(text: &str, prefix: &str) -> (r: bool)
    ensures
        r == begins_with(text@, prefix@),
{
    let t = chars_of(text);
    let p = chars_of(prefix);
    p.len() <= t.len() && matches_at(&t, &p, 0)
}

/// The two texts are the same, character for character.
pub fn same_text(a: &str, b: &str) -> (r: bool)
    ensures
        r == (a@ == b@),
{
    let x = chars_of(a);
    let y = chars_of(b);
    assert(x@.len() == y@.len() ==> x@.subrange(0, y@.len() as int) == x@);
    x.len() == y.len() && matches_at(&x, &y, 0)
}

/// The parts of `text` around the first place where `mark` stands.
pub open spec fn split_once(text: Seq<char>, mark: Seq<char>) -> Option<(Seq<char>, Seq<char>)> {
    match find_from(text, mark, 0) {
        Some(i) => Some((text.take(i), text.skip(i + mark.len()))),
        None => None,
    }
}

/// The pieces of `text` between the places where `mark` stands, taken from the
/// left without overlap.
pub open spec fn split_on(text: Seq<char>, mark: Seq<char>) -> Seq<Seq<char>>
    decreases text.len(),
{
    match find_from(text, mark, 0) {
        Some(i) => if 0 <= i && 0 < mark.len() && i + mark.len() <= text.len() {
            seq![text.take(i)] + split_on(text.skip(i + mark.len()), mark)
        } else {
            seq![text]
        },
        None => seq![text],
    }
}

/// Searching from a position is searching the rest of the text.
pub proof fn law_find_from_searches_the_rest(text: Seq<char>, mark: Seq<char>, from: int, back: int)
    requires
        0 <= back <= from,
        back <= text.len(),
    ensures
        find_from(text, mark, from) == (match find_from(text.skip(back), mark, from - back) {
            Some(i) => Some(i + back),
            None => None,
        }),
    decreases text.len() + 1 - from,
{
    if from + mark.len() <= text.len() {
        assert(text.skip(back).subrange(from - back, from - back + mark.len())
            == text.subrange(from, from + mark.len()));
        if !stands_at(text, mark, from) {
            law_find_from_searches_the_rest(text, mark, from + 1, back);
        }
    }
}

/// The two parts around the first mark give the text back with the mark
/// between them, no mark stands further left, and there are no parts only
/// where no mark stands.
pub proof fn law_split_once_cuts_at_the_first_mark(text: Seq<char>, mark: Seq<char>)
    ensures
        match split_once(text, mark) {
            Some((left, right)) => text == left + mark + right && (forall|at: int|
                0 <= at < left.len() ==> !stands_at(text, mark, at)),
            None => !contains_text(text, mark),
        },
{
    law_find_is_first(text, mark, 0);
    law_a_needle_stands_between_what_surrounds_it(Seq::empty(), mark, Seq::empty());
    if find_from(text, mark, 0) is None {
        assert forall|at: int| !stands_at(text, mark, at) by {}
    }
}

/// The pieces of a text give it back with the mark between each two, and no
/// piece holds the mark.
pub proof fn law_pieces_rejoin_and_hold_no_mark(text: Seq<char>, mark: Seq<char>)
    requires
        0 < mark.len(),
    ensures
        0 < split_on(text, mark).len(),
        join_texts(split_on(text, mark), mark) == text,
        forall|i: int|
            0 <= i < split_on(text, mark).len() ==> !contains_text(
                #[trigger] split_on(text, mark)[i],
                mark,
            ),
    decreases text.len(),
{
    law_split_once_cuts_at_the_first_mark(text, mark);
    law_find_is_first(text, mark, 0);
    let pieces = split_on(text, mark);
    match find_from(text, mark, 0) {
        Some(i) => {
            let first = text.take(i);
            let rest = text.skip(i + mark.len());
            let more = split_on(rest, mark);
            law_pieces_rejoin_and_hold_no_mark(rest, mark);
            assert(pieces == seq![first] + more);
            law_joining_goes_on(seq![first], more, mark);
            assert(join_texts(seq![first], mark) == first);
            assert forall|k: int| 0 <= k < pieces.len() implies !contains_text(
                #[trigger] pieces[k],
                mark,
            ) by {
                if k == 0 {
                    assert forall|at: int| !stands_at(first, mark, at) by {
                        if stands_at(first, mark, at) {
                            assert(text.subrange(at, at + mark.len()) =~= first.subrange(
                                at,
                                at + mark.len(),
                            ));
                            assert(stands_at(text, mark, at));
                        }
                    }
                } else {
                    assert(pieces[k] == more[k - 1]);
                }
            }
        },
        None => {
            assert(pieces == seq![text]);
        },
    }
}

/// A mark whose first character occurs in it once stands at no place that
/// reaches into another.
proof fn lemma_marks_do_not_overlap(left: Seq<char>, mark: Seq<char>, right: Seq<char>, at: int)
    requires
        forall|k: int| 0 < k < mark.len() ==> #[trigger] mark[k] != mark[0],
        0 <= at < left.len(),
        stands_at(left + mark + right, mark, at),
    ensures
        stands_at(left, mark, at),
{
    let text = left + mark + right;
    let n = left.len() as int;
    let found = text.subrange(at, at + mark.len());
    if at + mark.len() > n {
        assert(found[n - at] == text[n]);
        assert(text[n] == mark[0]);
    } else {
        assert(left.subrange(at, at + mark.len()) =~= found);
    }
}

/// Two texts with a mark between them split into the pieces of the one and then
/// those of the other, where the first character of the mark occurs in it once;
/// a text without the mark in front of it is cut off whole.
pub proof fn law_a_mark_parts_what_it_stands_between(
    left: Seq<char>,
    mark: Seq<char>,
    right: Seq<char>,
)
    requires
        0 < mark.len(),
        forall|k: int| 0 < k < mark.len() ==> #[trigger] mark[k] != mark[0],
    ensures
        split_on(left + mark + right, mark) == split_on(left, mark) + split_on(right, mark),
        !contains_text(left, mark) ==> split_on(left, mark) == seq![left],
        !contains_text(left, mark) ==> split_once(left + mark + right, mark) == Some((left, right)),
    decreases left.len(),
{
    let text = left + mark + right;
    let n = left.len() as int;
    law_find_is_first(text, mark, 0);
    law_find_is_first(left, mark, 0);
    assert(text.subrange(n, n + mark.len()) =~= mark);
    assert(stands_at(text, mark, n));
    let i = find_from(text, mark, 0)->0;
    if let Some(first) = find_from(left, mark, 0) {
        assert(text.subrange(first, first + mark.len()) =~= left.subrange(
            first,
            first + mark.len(),
        ));
        assert(stands_at(text, mark, first));
        if i < first {
            lemma_marks_do_not_overlap(left, mark, right, i);
        }
        assert(i == first);
        let rest = left.skip(first + mark.len());
        law_a_mark_parts_what_it_stands_between(rest, mark, right);
        assert(text.skip(first + mark.len()) =~= rest + mark + right);
        assert(text.take(first) =~= left.take(first));
        assert(seq![left.take(first)] + (split_on(rest, mark) + split_on(right, mark)) =~= (seq![
            left.take(first),
        ] + split_on(rest, mark)) + split_on(right, mark));
    } else {
        if i < n {
            lemma_marks_do_not_overlap(left, mark, right, i);
        }
        assert(i == n);
        assert(text.take(n) =~= left);
        assert(text.skip(n + mark.len()) =~= right);
    }
}

/// The pieces of `text` between the places where `mark` stands.
pub fn split(text: &Vec<char>, mark: &Vec<char>) -> (pieces: Vec<Vec<char>>)
    requires
        0 < mark@.len(),
    ensures
        pieces@.len() == split_on(text@, mark@).len(),
        forall|i: int|
            0 <= i < pieces@.len() ==> (#[trigger] pieces@[i])@ == split_on(text@, mark@)[i],
{
    let ghost whole = split_on(text@, mark@);
    let mut pieces: Vec<Vec<char>> = Vec::new();
    let mut start: usize = 0;
    assert(text@.skip(0) == text@);
    loop
        invariant
            start <= text@.len(),
            0 < mark@.len(),
            whole == split_on(text@, mark@),
            pieces@.len() + split_on(text@.skip(start as int), mark@).len() == whole.len(),
            forall|i: int| 0 <= i < pieces@.len() ==> (#[trigger] pieces@[i])@ == whole[i],
            forall|i: int|
                0 <= i < split_on(text@.skip(start as int), mark@).len() ==> #[trigger] split_on(
                    text@.skip(start as int),
                    mark@,
                )[i] == whole[pieces@.len() + i],
        decreases text@.len() - start,
    {
        let ghost rest = text@.skip(start as int);
        let ghost tail = split_on(rest, mark@);
        let ghost before = pieces@;
        let at = find(text, mark, start);
        proof {
            law_find_from_searches_the_rest(text@, mark@, start as int, start as int);
            law_find_is_first(rest, mark@, 0);
        }
        match at {
            Some(i) => {
                pieces.push(piece_of(text, start, i));
                let end: usize = text.len();
                assert(i + mark@.len() <= end);
                let next: usize = i + mark.len();
                proof {
                    assert(text@.subrange(start as int, i as int) == rest.take(i - start));
                    assert(tail[0] == rest.take(i - start));
                    assert(whole[before.len() + 0int] == tail[0]);
                    assert(rest.skip(i - start + mark@.len()) == text@.skip(next as int));
                    let more = split_on(text@.skip(next as int), mark@);
                    assert(tail == seq![rest.take(i - start)] + more);
                    assert forall|k: int| 0 <= k < more.len() implies #[trigger] more[k]
                        == whole[pieces@.len() + k] by {
                        assert(tail[k + 1] == more[k]);
                        assert(tail[k + 1] == whole[before.len() + (k + 1)]);
                    }
                }
                start = next;
            },
            None => {
                let end: usize = text.len();
                pieces.push(piece_of(text, start, end));
                proof {
                    assert(text@.subrange(start as int, end as int) == rest);
                    assert(tail == seq![rest]);
                    assert(tail[0] == whole[before.len() + 0int]);
                }
                return pieces;
            },
        }
    }
}

/// The characters from `from` up to `to`.
pub fn piece_of(text: &Vec<char>, from: usize, to: usize) -> (piece: Vec<char>)
    requires
        from <= to <= text@.len(),
    ensures
        piece@ == text@.subrange(from as int, to as int),
{
    let mut piece: Vec<char> = Vec::new();
    let mut i: usize = from;
    while i < to
        invariant
            from <= i <= to <= text@.len(),
            piece@ == text@.subrange(from as int, i as int),
        decreases to - i,
    {
        piece.push(text[i]);
        i += 1;
        assert(text@.subrange(from as int, i as int) == text@.subrange(from as int, i - 1).push(
            text@[i - 1],
        ));
    }
    piece
}

/// Which characters to take off the edges of a text.
#[derive(Clone, Copy, Debug, PartialEq, Eq)]
pub enum Edge {
    /// Unicode white space.
    White,
    /// Carriage returns and line feeds.
    LineEnd,
    /// The letter that marks a time as UTC, in either case.
    Zulu,
}

/// The characters with the Unicode property `White_Space`.
pub open spec fn is_white(c: char) -> bool {
    let n = c as u32;
    ||| 0x09 <= n <= 0x0d
    ||| n == 0x20
    ||| n == 0x85
    ||| n == 0xa0
    ||| n == 0x1680
    ||| 0x2000 <= n <= 0x200a
    ||| n == 0x2028
    ||| n == 0x2029
    ||| n == 0x202f
    ||| n == 0x205f
    ||| n == 0x3000
}

impl Edge {
    /// The character is one of those to take off.
    pub open spec fn covers(self, c: char) -> bool {
        match self {
            Edge::White => is_white(c),
            Edge::LineEnd => c == '\r' || c == '\n',
            Edge::Zulu => c == 'Z' || c == 'z',
        }
    }

    /// Whether the character is one of those to take off.
    pub fn takes(self, c: char) -> (r: bool)
        ensures
            r == self.covers(c),
    {
        match self {
            Edge::White => {
                let n: u32 = c as u32;
                (0x09 <= n && n <= 0x0d) || n == 0x20 || n == 0x85 || n == 0xa0 || n == 0x1680 || (
                0x2000 <= n && n <= 0x200a) || n == 0x2028 || n == 0x2029 || n == 0x202f || n
                    == 0x205f || n == 0x3000
            },
            Edge::LineEnd => c == '\r' || c == '\n',
            Edge::Zulu => c == 'Z' || c == 'z',
        }
    }
}

/// White space is the characters that Unicode lists as such; line ends are the
/// carriage return and the line feed; the mark of UTC is one letter in either
/// case.
pub proof fn law_what_the_edges_cover(c: char)
    ensures
        Edge::White.covers(c) <==> seq![
            '\u{9}',
            '\u{a}',
            '\u{b}',
            '\u{c}',
            '\u{d}',
            ' ',
            '\u{85}',
            '\u{a0}',
            '\u{1680}',
            '\u{2000}',
            '\u{2001}',
            '\u{2002}',
            '\u{2003}',
            '\u{2004}',
            '\u{2005}',
            '\u{2006}',
            '\u{2007}',
            '\u{2008}',
            '\u{2009}',
            '\u{200a}',
            '\u{2028}',
            '\u{2029}',
            '\u{202f}',
            '\u{205f}',
            '\u{3000}',
        ].contains(c),
        Edge::LineEnd.covers(c) <==> seq!['\r', '\n'].contains(c),
        Edge::Zulu.covers(c) <==> seq!['Z', 'z'].contains(c),
        Edge::LineEnd.covers(c) ==> Edge::White.covers(c),
{
    let white = seq![
        '\u{9}',
        '\u{a}',
        '\u{b}',
        '\u{c}',
        '\u{d}',
        ' ',
        '\u{85}',
        '\u{a0}',
        '\u{1680}',
        '\u{2000}',
        '\u{2001}',
        '\u{2002}',
        '\u{2003}',
        '\u{2004}',
        '\u{2005}',
        '\u{2006}',
        '\u{2007}',
        '\u{2008}',
        '\u{2009}',
        '\u{200a}',
        '\u{2028}',
        '\u{2029}',
        '\u{202f}',
        '\u{205f}',
        '\u{3000}',
    ];
    let n = c as u32;
    if is_white(c) {
        let i: int = if n <= 0x0d {
            n - 0x09
        } else if n == 0x20 {
            5
        } else if n == 0x85 {
            6
        } else if n == 0xa0 {
            7
        } else if n == 0x1680 {
            8
        } else if n <= 0x200a {
            9 + (n - 0x2000)
        } else if n == 0x2028 {
            20
        } else if n == 0x2029 {
            21
        } else if n == 0x202f {
            22
        } else if n == 0x205f {
            23
        } else {
            24
        };
        assert(white[i] == c);
    }
    let ends = seq!['\r', '\n'];
    assert(ends[0] == '\r' && ends[1] == '\n');
    let zulu = seq!['Z', 'z'];
    assert(zulu[0] == 'Z' && zulu[1] == 'z');
}

/// `text` without the covered characters at its front.
pub open spec fn strip_front(text: Seq<char>, edge: Edge) -> Seq<char>
    decreases text.len(),
{
    if text.len() > 0 && edge.covers(text[0]) {
        strip_front(text.skip(1), edge)
    } else {
        text
    }
}

/// `text` without the covered characters at its back.
pub open spec fn strip_back(text: Seq<char>, edge: Edge) -> Seq<char>
    decreases text.len(),
{
    if text.len() > 0 && edge.covers(text.last()) {
        strip_back(text.drop_last(), edge)
    } else {
        text
    }
}

/// `text` without the covered characters at both ends.
pub open spec fn strip_both(text: Seq<char>, edge: Edge) -> Seq<char> {
    strip_back(strip_front(text, edge), edge)
}

/// Trimming takes characters off the ends only: every one that it takes off is
/// covered, and what is left neither begins nor ends with a covered one.
pub proof fn law_trimming_takes_the_covered_edges(text: Seq<char>, edge: Edge)
    ensures
        exists|from: int, to: int|
            #![trigger text.subrange(from, to)]
            0 <= from <= to <= text.len() && strip_both(text, edge) == text.subrange(from, to) && (
            forall|i: int| 0 <= i < from || to <= i < text.len() ==> edge.covers(#[trigger] text[i]))
                && (from < to ==> !edge.covers(text[from]) && !edge.covers(text[to - 1])),
        exists|to: int|
            #![trigger text.take(to)]
            0 <= to <= text.len() && strip_back(text, edge) == text.take(to) && (forall|i: int|
                to <= i < text.len() ==> edge.covers(#[trigger] text[i])) && (0 < to
                ==> !edge.covers(text[to - 1])),
{
    let from = lemma_stripped_front(text, edge);
    let rest = text.skip(from);
    let left = lemma_stripped_back(rest, edge);
    let to = from + left;
    assert(rest.take(left) =~= text.subrange(from, to));
    assert forall|i: int| 0 <= i < from || to <= i < text.len() implies edge.covers(
        #[trigger] text[i],
    ) by {
        if to <= i {
            assert(rest[i - from] == text[i]);
        }
    }
    if from < to {
        assert(rest[left - 1] == text[to - 1]);
        assert(rest[0] == text[from]);
    }
    assert(strip_both(text, edge) == text.subrange(from, to));
    let end = lemma_stripped_back(text, edge);
    assert(strip_back(text, edge) == text.take(end));
}

proof fn lemma_stripped_front(text: Seq<char>, edge: Edge) -> (from: int)
    ensures
        0 <= from <= text.len(),
        strip_front(text, edge) == text.skip(from),
        forall|i: int| 0 <= i < from ==> edge.covers(#[trigger] text[i]),
        from < text.len() ==> !edge.covers(text[from]),
    decreases text.len(),
{
    if text.len() > 0 && edge.covers(text[0]) {
        let rest = text.skip(1);
        let more = lemma_stripped_front(rest, edge);
        assert(rest.skip(more) =~= text.skip(more + 1));
        assert forall|i: int| 0 <= i < more + 1 implies edge.covers(#[trigger] text[i]) by {
            if i > 0 {
                assert(rest[i - 1] == text[i]);
            }
        }
        if more < rest.len() {
            assert(rest[more] == text[more + 1]);
        }
        more + 1
    } else {
        assert(text.skip(0) =~= text);
        0
    }
}

proof fn lemma_stripped_back(text: Seq<char>, edge: Edge) -> (to: int)
    ensures
        0 <= to <= text.len(),
        strip_back(text, edge) == text.take(to),
        forall|i: int| to <= i < text.len() ==> edge.covers(#[trigger] text[i]),
        0 < to ==> !edge.covers(text[to - 1]),
    decreases text.len(),
{
    if text.len() > 0 && edge.covers(text.last()) {
        let rest = text.drop_last();
        let to = lemma_stripped_back(rest, edge);
        assert(rest.take(to) =~= text.take(to));
        assert forall|i: int| to <= i < text.len() implies edge.covers(#[trigger] text[i]) by {
            if i < rest.len() {
                assert(rest[i] == text[i]);
            }
        }
        to
    } else {
        assert(text.take(text.len() as int) =~= text);
        text.len() as int
    }
}

fn back_edge(chars: &Vec<char>, from: usize, edge: Edge) -> (to: usize)
    requires
        from <= chars@.len(),
    ensures
        from <= to <= chars@.len(),
        chars@.subrange(from as int, to as int) == strip_back(chars@.skip(from as int), edge),
{
    let mut to: usize = chars.len();
    assert(chars@.subrange(from as int, to as int) == chars@.skip(from as int));
    while to > from && edge.takes(chars[to - 1])
        invariant
            from <= to <= chars@.len(),
            strip_back(chars@.subrange(from as int, to as int), edge) == strip_back(
                chars@.skip(from as int),
                edge,
            ),
        decreases to,
    {
        let ghost now = chars@.subrange(from as int, to as int);
        to -= 1;
        assert(now.drop_last() == chars@.subrange(from as int, to as int));
        assert(now.last() == chars@[to as int]);
    }
    proof {
        let now = chars@.subrange(from as int, to as int);
        if to > from {
            assert(now.last() == chars@[to - 1]);
        }
    }
    to
}

/// The text without the covered characters at its back.
pub fn trim_back(text: &str, edge: Edge) -> (r: String)
    ensures
        r@ == strip_back(text@, edge),
{
    let chars = chars_of(text);
    let to = back_edge(&chars, 0, edge);
    assert(chars@.skip(0) == text@);
    text_of(&chars, 0, to)
}

/// The text without the covered characters at both ends.
pub fn trim_both(text: &str, edge: Edge) -> (r: String)
    ensures
        r@ == strip_both(text@, edge),
{
    let chars = chars_of(text);
    let mut from: usize = 0;
    assert(chars@.skip(0) == chars@);
    while from < chars.len() && edge.takes(chars[from])
        invariant
            from <= chars@.len(),
            strip_front(chars@.skip(from as int), edge) == strip_front(chars@, edge),
        decreases chars@.len() - from,
    {
        let ghost now = chars@.skip(from as int);
        from += 1;
        assert(now.skip(1) == chars@.skip(from as int));
    }
    let to = back_edge(&chars, from, edge);
    text_of(&chars, from, to)
}

/// The text `a` sorts at or before the text `b`: character by character, by
/// code point, a prefix before what it begins.
pub open spec fn text_le(a: Seq<char>, b: Seq<char>) -> bool
    decreases a.len(),
{
    if a.len() == 0 {
        true
    } else if b.len() == 0 {
        false
    } else if a[0] == b[0] {
        text_le(a.skip(1), b.skip(1))
    } else {
        a[0] < b[0]
    }
}

/// Whether the text `a` sorts at or before the text `b`.
pub fn at_or_before(a: &str, b: &str) -> (r: bool)
    ensures
        r == text_le(a@, b@),
{
    let x = chars_of(a);
    let y = chars_of(b);
    let mut i: usize = 0;
    assert(x@.skip(0) == x@);
    assert(y@.skip(0) == y@);
    while i < x.len() && i < y.len() && x[i] == y[i]
        invariant
            i <= x@.len(),
            i <= y@.len(),
            text_le(x@, y@) == text_le(x@.skip(i as int), y@.skip(i as int)),
        decreases x@.len() - i,
    {
        let ghost p = x@.skip(i as int);
        let ghost q = y@.skip(i as int);
        i += 1;
        assert(p.skip(1) == x@.skip(i as int));
        assert(q.skip(1) == y@.skip(i as int));
    }
    if i == x.len() {
        true
    } else if i == y.len() {
        false
    } else {
        x[i] < y[i]
    }
}

/// The order of texts is total.
pub proof fn law_text_order_is_total(a: Seq<char>, b: Seq<char>)
    ensures
        text_le(a, b) || text_le(b, a),
        text_le(a, a),
        text_le(a, b) && text_le(b, a) ==> a == b,
    decreases a.len(),
{
    if a.len() > 0 {
        law_text_order_is_total(a.skip(1), a.skip(1));
        if b.len() > 0 && a[0] == b[0] {
            law_text_order_is_total(a.skip(1), b.skip(1));
            if text_le(a, b) && text_le(b, a) {
                assert(a =~= seq![a[0]] + a.skip(1));
                assert(b =~= seq![b[0]] + b.skip(1));
            }
        }
    } else if text_le(b, a) {
        assert(a =~= b);
    }
}

/// The order of texts is transitive.
pub proof fn law_text_order_is_transitive(a: Seq<char>, b: Seq<char>, c: Seq<char>)
    requires
        text_le(a, b),
        text_le(b, c),
    ensures
        text_le(a, c),
    decreases a.len(),
{
    if a.len() > 0 && b.len() > 0 && c.len() > 0 && a[0] == b[0] && b[0] == c[0] {
        law_text_order_is_transitive(a.skip(1), b.skip(1), c.skip(1));
    }
}

/// A text stands before whatever it begins, and of two texts that part ways
/// after a common front the one with the lower character stands first.
pub proof fn law_the_first_difference_orders_texts(
    front: Seq<char>,
    low: char,
    high: char,
    one: Seq<char>,
    other: Seq<char>,
)
    requires
        low < high,
    ensures
        text_le(front, front + one),
        0 < one.len() ==> !text_le(front + one, front),
        text_le(front + seq![low] + one, front + seq![high] + other),
        !text_le(front + seq![high] + other, front + seq![low] + one),
    decreases front.len(),
{
    let a = front + seq![low] + one;
    let b = front + seq![high] + other;
    if front.len() == 0 {
        assert(front + one =~= one);
        assert(a[0] == low && b[0] == high);
    } else {
        let rest = front.skip(1);
        law_the_first_difference_orders_texts(rest, low, high, one, other);
        assert(a.skip(1) =~= rest + seq![low] + one);
        assert(b.skip(1) =~= rest + seq![high] + other);
        assert((front + one).skip(1) =~= rest + one);
        assert(a[0] == front[0] && b[0] == front[0] && (front + one)[0] == front[0]);
    }
}

/// An ASCII letter or digit.
pub open spec fn is_alphanumeric(c: char) -> bool {
    ('0' <= c && c <= '9') || ('A' <= c && c <= 'Z') || ('a' <= c && c <= 'z')
}

/// Every character is an ASCII letter or digit.
pub open spec fn all_alphanumeric(text: Seq<char>) -> bool {
    forall|i: int| 0 <= i < text.len() ==> is_alphanumeric(#[trigger] text[i])
}

/// The ten digits and the twenty-six letters in both cases are letters or
/// digits, and nothing else is.
pub proof fn law_letters_and_digits(c: char)
    ensures
        is_alphanumeric(c) <==> (0x30 <= c as u32 <= 0x39 || 0x41 <= c as u32 <= 0x5a || 0x61
            <= c as u32 <= 0x7a),
{
}

/// A text is of letters and digits exactly if each of its characters is.
pub proof fn law_letters_and_digits_throughout(front: Seq<char>, c: char)
    ensures
        all_alphanumeric(front.push(c)) <==> all_alphanumeric(front) && is_alphanumeric(c),
        front.len() == 0 ==> all_alphanumeric(front),
{
    let all = front.push(c);
    assert(all[front.len() as int] == c);
    if all_alphanumeric(all) {
        assert forall|i: int| 0 <= i < front.len() implies is_alphanumeric(#[trigger] front[i]) by {
            assert(all[i] == front[i]);
        }
    }
}

/// Whether every character is an ASCII letter or digit.
pub fn only_alphanumeric(text: &str) -> (r: bool)
    ensures
        r == all_alphanumeric(text@),
{
    let chars = chars_of(text);
    let mut i: usize = 0;
    while i < chars.len()
        invariant
            i <= chars@.len(),
            chars@ == text@,
            forall|j: int| 0 <= j < i ==> is_alphanumeric(#[trigger] chars@[j]),
        decreases chars@.len() - i,
    {
        let c = chars[i];
        if !(('0' <= c && c <= '9') || ('A' <= c && c <= 'Z') || ('a' <= c && c <= 'z')) {
            assert(!is_alphanumeric(text@[i as int]));
            return false;
        }
        i += 1;
    }
    true
}

/// Whether the character occurs in the text.
pub fn has_char(text: &str, c: char) -> (r: bool)
    ensures
        r == text@.contains(c),
{
    let chars = chars_of(text);
    let mut i: usize = 0;
    while i < chars.len()
        invariant
            i <= chars@.len(),
            chars@ == text@,
            forall|j: int| 0 <= j < i ==> chars@[j] != c,
        decreases chars@.len() - i,
    {
        if chars[i] == c {
            assert(text@[i as int] == c);
            return true;
        }
        i += 1;
    }
    false
}

/// The last position of a character in a text.
pub open spec fn last_index(text: Seq<char>, c: char) -> Option<int>
    decreases text.len(),
{
    if text.len() == 0 {
        None
    } else if text.last() == c {
        Some(text.len() - 1)
    } else {
        last_index(text.drop_last(), c)
    }
}

/// The last position holds the character and no later one does; there is none
/// only where the character does not occur.
pub proof fn law_the_last_index_is_last(text: Seq<char>, c: char)
    ensures
        match last_index(text, c) {
            Some(i) => 0 <= i < text.len() && text[i] == c && (forall|j: int|
                i < j < text.len() ==> text[j] != c),
            None => !text.contains(c),
        },
    decreases text.len(),
{
    if text.len() > 0 && text.last() != c {
        let front = text.drop_last();
        law_the_last_index_is_last(front, c);
        if last_index(front, c) is None {
            assert forall|i: int| 0 <= i < text.len() implies text[i] != c by {
                if i < front.len() {
                    assert(front[i] == text[i]);
                }
            }
        } else {
            let i = last_index(front, c)->0;
            assert(front[i] == text[i]);
            assert forall|j: int| i < j < text.len() implies text[j] != c by {
                if j < front.len() {
                    assert(front[j] == text[j]);
                }
            }
        }
    }
}

/// Where a character last occurs in a text.
pub fn find_last(text: &Vec<char>, c: char) -> (at: Option<usize>)
    ensures
        at is Some <==> last_index(text@, c) is Some,
        at matches Some(i) ==> i < text@.len() && last_index(text@, c) == Some(i as int),
{
    let mut end: usize = text.len();
    assert(text@.take(end as int) == text@);
    while end > 0
        invariant
            end <= text@.len(),
            last_index(text@, c) == last_index(text@.take(end as int), c),
        decreases end,
    {
        let ghost now = text@.take(end as int);
        if text[end - 1] == c {
            return Some(end - 1);
        }
        end -= 1;
        assert(now.drop_last() == text@.take(end as int));
    }
    None
}

/// The value of a decimal digit.
pub open spec fn digit_value(c: char) -> Option<nat> {
    if '0' <= c && c <= '9' {
        Some((c as u32 - '0' as u32) as nat)
    } else {
        None
    }
}

/// The number that a row of decimal digits spells, most significant first.
pub open spec fn digits_value(text: Seq<char>) -> Option<nat>
    decreases text.len(),
{
    if text.len() == 0 {
        Some(0)
    } else {
        match (digits_value(text.drop_last()), digit_value(text.last())) {
            (Some(high), Some(low)) => Some(10 * high + low),
            _ => None,
        }
    }
}

/// The port a text spells: decimal digits, with a plus sign in front at will,
/// naming a number of sixteen bits.
pub open spec fn port_number(text: Seq<char>) -> Option<u16> {
    let digits = if text.len() > 0 && text[0] == '+' {
        text.skip(1)
    } else {
        text
    };
    match digits_value(digits) {
        Some(n) => if digits.len() > 0 && n <= u16::MAX {
            Some(n as u16)
        } else {
            None
        },
        None => None,
    }
}

/// A row of digits spells at least what its front spells.
proof fn lemma_digits_grow(text: Seq<char>, front: int)
    requires
        0 <= front <= text.len(),
        digits_value(text) is Some,
    ensures
        digits_value(text.take(front)) is Some,
        digits_value(text.take(front))->0 <= digits_value(text)->0,
    decreases text.len(),
{
    if front == text.len() {
        assert(text.take(front) == text);
    } else {
        lemma_digits_grow(text.drop_last(), front);
        assert(text.drop_last().take(front) == text.take(front));
    }
}

/// The port that the characters from `from` on spell.
pub fn parse_port(chars: &Vec<char>, from: usize) -> (port: Option<u16>)
    requires
        from <= chars@.len(),
    ensures
        port == port_number(chars@.skip(from as int)),
{
    let mut start: usize = from;
    if start < chars.len() && chars[start] == '+' {
        start += 1;
    }
    let ghost digits = chars@.skip(start as int);
    assert(start > from ==> digits == chars@.skip(from as int).skip(1));
    if start == chars.len() {
        return None;
    }
    let mut value: u32 = 0;
    let mut i: usize = start;
    assert(digits.take(0) == Seq::<char>::empty());
    while i < chars.len()
        invariant
            start <= i <= chars@.len(),
            digits == chars@.skip(start as int),
            value <= u16::MAX,
            digits_value(digits.take(i - start)) == Some(value as nat),
            port_number(chars@.skip(from as int)) == (match digits_value(digits) {
                Some(n) => if n <= u16::MAX {
                    Some(n as u16)
                } else {
                    None
                },
                None => None,
            }),
        decreases chars@.len() - i,
    {
        let c = chars[i];
        let ghost seen = digits.take(i - start + 1);
        proof {
            assert(seen.drop_last() == digits.take(i - start));
            assert(seen.last() == c);
            if digits_value(digits) is Some {
                lemma_digits_grow(digits, i - start + 1);
            }
        }
        if c < '0' || '9' < c {
            return None;
        }
        value = 10 * value + (c as u32 - '0' as u32);
        if value > 65535 {
            return None;
        }
        i += 1;
    }
    assert(digits.take(i - start) == digits);
    Some(value as u16)
}

/// The decimal digit with the given value.
pub open spec fn digit_char(value: nat) -> char {
    ('0' as u32 + value) as char
}

/// The decimal digits of a number, most significant first.
pub open spec fn digits(n: nat) -> Seq<char>
    decreases n,
{
    if n < 10 {
        seq![digit_char(n)]
    } else {
        digits(n / 10).push(digit_char(n % 10))
    }
}

/// A number in decimal, with a minus sign in front where it is negative.
pub open spec fn decimal(n: int) -> Seq<char> {
    if n < 0 {
        seq!['-'] + digits((-n) as nat)
    } else {
        digits(n as nat)
    }
}

fn digit(value: u128) -> (c: char)
    requires
        value < 10,
    ensures
        c == digit_char(value as nat),
{
    (0x30u8 + value as u8) as char
}

/// The decimal digits of a number.
pub fn digits_text(n: u128) -> (text: String)
    ensures
        text@ == digits(n as nat),
    decreases n,
{
    let mut text = if n < 10 {
        String::new()
    } else {
        digits_text(n / 10)
    };
    text.push(digit(n % 10));
    text
}

/// A number in decimal.
pub fn decimal_text(n: i128) -> (text: String)
    requires
        n > i128::MIN,
    ensures
        text@ == decimal(n as int),
{
    if n < 0 {
        let mut text = String::new();
        text.push('-');
        let digits = digits_text((-n) as u128);
        text.append(digits.as_str());
        text
    } else {
        digits_text(n as u128)
    }
}

/// A number reads back from its digits: they are decimal digits, the first is
/// zero for the number zero alone, and there is one place for each power of ten
/// that the number reaches.
pub proof fn law_digits_read_back(n: nat)
    ensures
        digits_value(digits(n)) == Some(n),
        0 < digits(n).len(),
        forall|i: int| 0 <= i < digits(n).len() ==> '0' <= #[trigger] digits(n)[i] <= '9',
        digits(n)[0] == '0' ==> n == 0,
        n < 10 ==> digits(n).len() == 1,
        n >= 10 ==> digits(n).len() == digits(n / 10).len() + 1,
    decreases n,
{
    if n < 10 {
        let one = digits(n);
        assert(one.drop_last() =~= Seq::<char>::empty());
        assert(digits_value(one.drop_last()) == Some(0nat));
        law_digit_characters(n);
    } else {
        law_digits_read_back(n / 10);
        law_digit_characters(n % 10);
        assert(digits(n).drop_last() =~= digits(n / 10));
    }
}

/// The ten digits, each with its value; no other character has one.
pub proof fn law_digit_characters(value: nat)
    requires
        value < 10,
    ensures
        digit_char(value) == seq!['0', '1', '2', '3', '4', '5', '6', '7', '8', '9'][value as int],
        digit_value(digit_char(value)) == Some(value),
        forall|c: char| #[trigger] digit_value(c) is Some <==> '0' <= c <= '9',
{
}

/// A row of characters spells a number exactly if each of them is a digit;
/// zeros in front do not change it, and another digit behind makes it ten times
/// as much and the digit.
pub proof fn law_digit_rows(text: Seq<char>, value: nat)
    requires
        value < 10,
    ensures
        digits_value(text) is Some <==> forall|i: int|
            0 <= i < text.len() ==> '0' <= #[trigger] text[i] <= '9',
        digits_value(seq!['0'] + text) == digits_value(text),
        digits_value(text) is Some ==> digits_value(text.push(digit_char(value))) == Some(
            10 * digits_value(text)->0 + value,
        ),
        digits_value(Seq::empty()) == Some(0nat),
    decreases text.len(),
{
    law_digit_characters(value);
    assert(text.push(digit_char(value)).drop_last() =~= text);
    let padded = seq!['0'] + text;
    if text.len() == 0 {
        assert(padded.drop_last() =~= Seq::<char>::empty());
        assert(text =~= Seq::<char>::empty());
    } else {
        let front = text.drop_last();
        law_digit_rows(front, value);
        assert(padded.drop_last() =~= seq!['0'] + front);
        assert(padded.last() == text.last());
        assert forall|i: int| 0 <= i < front.len() implies front[i] == #[trigger] text[i] by {}
        if digits_value(text) is Some {
            assert forall|i: int| 0 <= i < text.len() implies '0' <= #[trigger] text[i] <= '9' by {
                if i < front.len() {
                    assert(front[i] == text[i]);
                }
            }
        }
        if forall|i: int| 0 <= i < text.len() ==> '0' <= #[trigger] text[i] <= '9' {
            assert(text.last() == text[text.len() - 1]);
            assert forall|i: int| 0 <= i < front.len() implies '0' <= #[trigger] front[i] <= '9' by {
                assert(front[i] == text[i]);
            }
        }
    }
}

/// A negative number is spelled as its opposite with a minus sign in front, and
/// any other by its digits alone.
pub proof fn law_decimals_carry_their_sign(n: nat)
    ensures
        decimal(n as int) == digits(n),
        0 < n ==> decimal(-n) == seq!['-'] + decimal(n as int),
{
}

/// Every port is read from its digits, with or without a plus sign; a number
/// past sixteen bits, a sign alone and anything with another character in it
/// is no port.
pub proof fn law_ports_are_numbers_of_sixteen_bits(n: nat, text: Seq<char>)
    ensures
        port_number(digits(n)) == (if n < 0x1_0000 {
            Some(n as u16)
        } else {
            None
        }),
        text.len() > 0 && text[0] != '+' ==> port_number(seq!['+'] + text) == port_number(text),
        text.len() > 0 && text[0] != '+' ==> (port_number(text) is Some <==> digits_value(text)
            is Some && digits_value(text)->0 < 0x1_0000),
        text.len() == 0 ==> port_number(text) is None && port_number(seq!['+'] + text) is None,
        text.len() > 0 && text[0] == '+' ==> port_number(seq!['+'] + text) is None,
        port_number(text) is Some && text[0] != '+' ==> digits_value(text) == Some(
            port_number(text)->0 as nat,
        ),
{
    law_digits_read_back(n);
    assert((seq!['+'] + text).skip(1) =~= text);
    if text.len() > 0 && text[0] == '+' {
        law_digit_rows(text, 0);
    }
}

/// The texts one after the other, with `mark` between each two.
pub open spec fn join_texts(parts: Seq<Seq<char>>, mark: Seq<char>) -> Seq<char>
    decreases parts.len(),
{
    if parts.len() == 0 {
        Seq::empty()
    } else if parts.len() == 1 {
        parts[0]
    } else {
        join_texts(parts.drop_last(), mark) + mark + parts.last()
    }
}

/// Joining two lists joins what each of them makes; one text alone is itself,
/// and no text at all makes none.
pub proof fn law_joining_goes_on(front: Seq<Seq<char>>, back: Seq<Seq<char>>, mark: Seq<char>)
    ensures
        0 < front.len() && 0 < back.len() ==> join_texts(front + back, mark) == join_texts(
            front,
            mark,
        ) + mark + join_texts(back, mark),
        front.len() == 1 ==> join_texts(front, mark) == front[0],
        front.len() == 0 ==> join_texts(front, mark).len() == 0,
    decreases back.len(),
{
    if 0 < front.len() && 0 < back.len() {
        let all = front + back;
        assert(all.drop_last() =~= front + back.drop_last());
        if back.len() == 1 {
            assert(front + back.drop_last() =~= front);
        } else {
            law_joining_goes_on(front, back.drop_last(), mark);
            assert(join_texts(all, mark) =~= join_texts(front, mark) + mark + join_texts(
                back,
                mark,
            ));
        }
    }
}

/// What a list of texts holds.
pub open spec fn texts(list: Seq<String>) -> Seq<Seq<char>> {
    list.map_values(|text: String| text@)
}

/// The texts one after the other, with `mark` between each two.
pub fn join(parts: &Vec<String>, mark: &str) -> (text: String)
    ensures
        text@ == join_texts(texts(parts@), mark@),
{
    let ghost all = texts(parts@);
    let mut text = String::new();
    let mut i: usize = 0;
    assert(all.take(0) == Seq::<Seq<char>>::empty());
    while i < parts.len()
        invariant
            i <= parts@.len(),
            all == texts(parts@),
            text@ == join_texts(all.take(i as int), mark@),
        decreases parts@.len() - i,
    {
        let ghost next = all.take(i + 1);
        assert(next.drop_last() == all.take(i as int));
        assert(next.last() == parts@[i as int]@);
        if i > 0 {
            text.append(mark);
        }
        text.append(parts[i].as_str());
        i += 1;
    }
    assert(all.take(i as int) == all);
    text
}

/// Each entry of a list is what the text in its place holds.
pub proof fn law_texts_keep_their_places(list: Seq<String>)
    ensures
        texts(list).len() == list.len(),
        forall|i: int| 0 <= i < list.len() ==> #[trigger] texts(list)[i] == list[i]@,
{
}

/// Whether the list holds the text.
pub fn has_text(list: &Vec<String>, text: &str) -> (r: bool)
    ensures
        r == texts(list@).contains(text@),
{
    let mut i: usize = 0;
    while i < list.len()
        invariant
            i <= list@.len(),
            forall|j: int| 0 <= j < i ==> texts(list@)[j] != text@,
        decreases list@.len() - i,
    {
        if same_text(list[i].as_str(), text) {
            assert(texts(list@)[i as int] == text@);
            return true;
        }
        i += 1;
    }
    false
}

/// How `{:?}` spells a text: in double quotes, with escapes.
pub uninterp spec fn debug_text(text: Seq<char>) -> Seq<char>;

/// `std::fmt::Debug` of `str`: the text in double quotes, with the characters
/// escaped that need it. What it spells depends on the text alone and is
/// called by a name.
#[verifier::external_body]
pub(crate) fn quoted(text: &str) -> (r: String)
    ensures
        r@ == debug_text(text@),
{
    format!("{:?}", text)
}

/// What `String::from_utf8_lossy` makes of bytes.
pub uninterp spec fn lossy_text(bytes: Seq<u8>) -> Seq<char>;

/// Bytes that are valid UTF-8 are read as they stand.
pub open spec fn reads_plainly(bytes: Seq<u8>) -> bool {
    vstd::utf8::valid_utf8(bytes) ==> lossy_text(bytes) == vstd::utf8::decode_utf8(bytes)
}

/// Bytes that are read plainly and are valid UTF-8 are read as what they encode.
pub proof fn law_what_is_read_plainly(bytes: Seq<u8>)
    ensures
        vstd::utf8::valid_utf8(bytes) ==> (reads_plainly(bytes) <==> lossy_text(bytes)
            == vstd::utf8::decode_utf8(bytes)),
        !vstd::utf8::valid_utf8(bytes) ==> reads_plainly(bytes),
{
}

/// `std::string::String::from_utf8_lossy`: the text that the bytes encode,
/// with the replacement character where they are not valid UTF-8. Valid UTF-8
/// is read as it stands.
#[verifier::external_body]
pub(crate) fn lossy(bytes: &[u8]) -> (r: String)
    ensures
        r@ == lossy_text(bytes@),
        vstd::utf8::valid_utf8(bytes@) ==> r@ == vstd::utf8::decode_utf8(bytes@),
{
    String::from_utf8_lossy(bytes).into_owned()
}

} // verus!
