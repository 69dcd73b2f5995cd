//! Splitting a document into its top-level Markdown blocks while keeping every byte of the
//! source between them, and the few facts about a single block the view needs.

use vstd::prelude::*;
use vstd::string::StrSliceExecFns;
use vstd::string::StringExecFns;
use crate::markdown::{parse_pieces, parsed, Event, Piece};
use crate::text::{all_white, chars_of, is_whitespace, len_utf8, lemma_prefix_len, lemma_str_len, lemma_take_push, starts_char, utf8_len, white};

verus! {

/// `starts[k]` is where character `k` of `s` starts in bytes, and `starts[s.len()]` is the
/// byte length.
pub open spec fn byte_table(s: Seq<char>, starts: Seq<usize>) -> bool {
    &&& starts.len() == s.len() + 1
    &&& forall|k: int| 0 <= k <= s.len() ==> starts[k] == utf8_len(#[trigger] s.take(k))
}

/// The character that starts at byte `b` of `s`, if one does (`s.len()` for the end).
pub open spec fn char_at_byte(s: Seq<char>, b: int) -> Option<int> {
    if exists|k: int| starts_char(s, k, b) {
        Some(choose|k: int| starts_char(s, k, b))
    } else {
        None
    }
}

pub proof fn lemma_starts_char_unique(s: Seq<char>, k1: int, k2: int, b: int)
    requires
        starts_char(s, k1, b),
        starts_char(s, k2, b),
    ensures
        k1 == k2,
{
    if k1 < k2 {
        lemma_prefix_len(s, k1, k2);
    } else if k2 < k1 {
        lemma_prefix_len(s, k2, k1);
    }
}

/// Where each character of `chars` starts in bytes, and where the text ends.
pub fn byte_starts(text: &str, chars: &Vec<char>) -> (starts: Vec<usize>)
    requires
        chars@ == text@,
    ensures
        byte_table(text@, starts@),
{
    let ghost s = text@;
    proof {
        lemma_str_len(text);
    }
    let total = text.as_bytes().len();
    let mut starts: Vec<usize> = Vec::new();
    let mut offset: usize = 0;
    let mut i: usize = 0;
    while i < chars.len()
        invariant
            chars@ == s,
            s == text@,
            total == utf8_len(s),
            0 <= i <= s.len(),
            offset == utf8_len(s.take(i as int)),
            starts.len() == i,
            forall|k: int| 0 <= k < i ==> starts[k] == utf8_len(#[trigger] s.take(k)),
        decreases s.len() - i,
    {
        starts.push(offset);
        proof {
            lemma_take_push(s, i as int);
            lemma_prefix_len(s, i + 1, s.len() as int);
            assert(s.take(s.len() as int) =~= s);
        }
        offset = offset + len_utf8(chars[i]);
        i = i + 1;
    }
    starts.push(offset);
    proof {
        assert forall|k: int| 0 <= k <= s.len() implies starts@[k] == utf8_len(#[trigger] s.take(k)) by {
            if k == s.len() {
                assert(s.take(k) =~= s.take(i as int));
            }
        }
    }
    starts
}

/// The character starting at byte `b`, found by halving the table.
pub(crate) fn char_at(starts: &Vec<usize>, b: usize, Ghost(s): Ghost<Seq<char>>) -> (k: Option<usize>)
    requires
        byte_table(s, starts@),
    ensures
        k matches Some(i) ==> starts_char(s, i as int, b as int) && char_at_byte(s, b as int) == Some(
            i as int,
        ),
        k is None ==> char_at_byte(s, b as int) is None,
{
    let mut low: usize = 0;
    let mut high: usize = starts.len();
    while low < high
        invariant
            byte_table(s, starts@),
            0 <= low <= high <= starts.len(),
            forall|j: int| 0 <= j < low ==> starts[j] < b,
            forall|j: int| high <= j < starts.len() ==> starts[j] > b,
        decreases high - low,
    {
        let mid = low + (high - low) / 2;
        if starts[mid] == b {
            proof {
                assert(starts_char(s, mid as int, b as int));
                let k = choose|k: int| starts_char(s, k, b as int);
                lemma_starts_char_unique(s, k, mid as int, b as int);
            }
            return Some(mid);
        } else if starts[mid] < b {
            proof {
                assert forall|j: int| 0 <= j < mid + 1 implies starts[j] < b by {
                    if j < mid {
                        lemma_prefix_len(s, j, mid as int);
                    }
                }
            }
            low = mid + 1;
        } else {
            proof {
                assert forall|j: int| mid <= j < starts.len() implies starts[j] > b by {
                    if j > mid {
                        lemma_prefix_len(s, mid as int, j);
                    }
                }
            }
            high = mid;
        }
    }
    proof {
        assert forall|k: int| !starts_char(s, k, b as int) by {
            if 0 <= k <= s.len() {
                assert(starts[k] == utf8_len(s.take(k)));
            }
        }
    }
    None
}

/// Whether an event opens an element.
pub open spec fn opens(event: Event) -> bool {
    event is Start || event is Image
}

/// How deep inside elements the parser is once `pieces` have been read.
pub open spec fn depth(pieces: Seq<Piece>) -> int
    decreases pieces.len(),
{
    if pieces.len() == 0 {
        0
    } else if opens(pieces.last().event) {
        depth(pieces.drop_last()) + 1
    } else if pieces.last().event is End {
        depth(pieces.drop_last()) - 1
    } else {
        depth(pieces.drop_last())
    }
}

/// The events never close more elements than they have opened.
pub open spec fn never_underflows(pieces: Seq<Piece>) -> bool {
    forall|i: int| 0 <= i <= pieces.len() ==> depth(#[trigger] pieces.take(i)) >= 0
}

/// The byte ranges of the top-level events: a whole element from its start to its end, or a
/// lone event outside any element. The first component is where the element being read
/// opened.
pub open spec fn top_scan(pieces: Seq<Piece>) -> (int, Seq<(int, int)>)
    decreases pieces.len(),
{
    if pieces.len() == 0 {
        (0, Seq::empty())
    } else {
        let before = top_scan(pieces.drop_last());
        let d = depth(pieces.drop_last());
        let piece = pieces.last();
        if opens(piece.event) {
            (if d == 0 { piece.start as int } else { before.0 }, before.1)
        } else if piece.event is End {
            if d == 1 {
                (before.0, before.1.push((before.0, piece.end as int)))
            } else {
                before
            }
        } else if d == 0 {
            (before.0, before.1.push((piece.start as int, piece.end as int)))
        } else {
            before
        }
    }
}

/// The byte ranges of the top-level events of `pieces`.
pub open spec fn top_ranges(pieces: Seq<Piece>) -> Seq<(int, int)> {
    top_scan(pieces).1
}

/// The byte ranges of the top-level events: a whole element from where it opens to where it
/// closes, or an event that stands outside every element. `None` where the events close an
/// element that was never opened.
pub fn semantic_ranges(pieces: &Vec<Piece>) -> (ranges: Option<Vec<(usize, usize)>>)
    ensures
        match ranges {
            Some(r) => never_underflows(pieces@) && r@.map_values(|p: (usize, usize)| (p.0 as int, p.1 as int))
                == top_ranges(pieces@),
            None => !never_underflows(pieces@),
        },
{
    let mut ranges: Vec<(usize, usize)> = Vec::new();
    let mut depth: usize = 0;
    let mut start: usize = 0;
    let mut i: usize = 0;
    while i < pieces.len()
        invariant
            0 <= i <= pieces.len(),
            depth == crate::parse::depth(pieces@.take(i as int)),
            depth <= i,
            start == top_scan(pieces@.take(i as int)).0,
            ranges@.map_values(|p: (usize, usize)| (p.0 as int, p.1 as int)) == top_scan(
                pieces@.take(i as int),
            ).1,
            forall|j: int| 0 <= j <= i ==> crate::parse::depth(#[trigger] pieces@.take(j)) >= 0,
        decreases pieces.len() - i,
    {
        let ghost before = pieces@.take(i as int);
        proof {
            assert(pieces@.take(i + 1).drop_last() =~= before);
            assert(pieces@.take(i + 1).last() == pieces@[i as int]);
        }
        let piece = &pieces[i];
        match &piece.event {
            Event::Start(_) | Event::Image(_) => {
                if depth == 0 {
                    start = piece.start;
                }
                depth = depth + 1;
            },
            Event::End(_) => {
                if depth == 0 {
                    proof {
                        assert(crate::parse::depth(pieces@.take(i + 1)) < 0);
                    }
                    return None;
                }
                depth = depth - 1;
                if depth == 0 {
                    ranges.push((start, piece.end));
                }
            },
            _ => {
                if depth == 0 {
                    ranges.push((piece.start, piece.end));
                }
            },
        }
        proof {
            assert(ranges@.map_values(|p: (usize, usize)| (p.0 as int, p.1 as int)) =~= top_scan(
                pieces@.take(i + 1),
            ).1);
        }
        i = i + 1;
    }
    proof {
        assert(pieces@.take(pieces@.len() as int) =~= pieces@);
    }
    Some(ranges)
}

/// Pairs of machine integers as mathematical ones.
pub open spec fn ints(v: Seq<(usize, usize)>) -> Seq<(int, int)> {
    v.map_values(|p: (usize, usize)| (p.0 as int, p.1 as int))
}

pub proof fn lemma_ints_push(v: Seq<(usize, usize)>, x: (usize, usize))
    ensures
        ints(v.push(x)) == ints(v).push((x.0 as int, x.1 as int)),
        ints(v).len() == v.len(),
{
    assert(ints(v.push(x)) =~= ints(v).push((x.0 as int, x.1 as int)));
}

/// The character range that byte range `r` of `s` covers, if both its ends fall where a
/// character starts and they are in order.
pub open spec fn char_range(s: Seq<char>, r: (int, int)) -> Option<(int, int)> {
    match (char_at_byte(s, r.0), char_at_byte(s, r.1)) {
        (Some(a), Some(b)) => if a <= b {
            Some((a, b))
        } else {
            None
        },
        _ => None,
    }
}

/// Where `s[a..b]` ends once its trailing whitespace is taken off.
pub open spec fn trim_end_at(s: Seq<char>, a: int, b: int) -> int
    decreases b - a,
{
    if b <= a {
        a
    } else if white(s[b - 1]) {
        trim_end_at(s, a, b - 1)
    } else {
        b
    }
}

/// The top-level ranges as character ranges with their trailing whitespace taken off, the
/// ranges left empty by that dropped. `None` where a range cannot be read as characters.
pub open spec fn covered(s: Seq<char>, ranges: Seq<(int, int)>) -> Option<Seq<(int, int)>>
    decreases ranges.len(),
{
    if ranges.len() == 0 {
        Some(Seq::empty())
    } else {
        match (covered(s, ranges.drop_last()), char_range(s, ranges.last())) {
            (Some(c), Some(r)) => {
                let end = trim_end_at(s, r.0, r.1);
                if end > r.0 {
                    Some(c.push((r.0, end)))
                } else {
                    Some(c)
                }
            },
            _ => None,
        }
    }
}

pub proof fn lemma_trim_end_at(s: Seq<char>, a: int, b: int)
    requires
        0 <= a <= b <= s.len(),
    ensures
        a <= trim_end_at(s, a, b) <= b,
        trim_end_at(s, a, b) > a ==> !white(s[trim_end_at(s, a, b) - 1]),
        all_white(s.subrange(trim_end_at(s, a, b), b)),
    decreases b - a,
{
    if b > a && white(s[b - 1]) {
        lemma_trim_end_at(s, a, b - 1);
        let e = trim_end_at(s, a, b);
        assert forall|i: int| 0 <= i < b - e implies white(#[trigger] s.subrange(e, b)[i]) by {
            if i < b - 1 - e {
                assert(s.subrange(e, b)[i] == s.subrange(e, b - 1)[i]);
            }
        }
    }
}

/// Where `chars[from..to]` ends once its trailing whitespace is taken off.
fn trim_end(chars: &Vec<char>, from: usize, to: usize) -> (end: usize)
    requires
        from <= to <= chars.len(),
    ensures
        end == trim_end_at(chars@, from as int, to as int),
{
    let mut end = to;
    while end > from && is_whitespace(chars[end - 1])
        invariant
            from <= end <= to <= chars.len(),
            trim_end_at(chars@, from as int, end as int) == trim_end_at(chars@, from as int, to as int),
        decreases end - from,
    {
        end = end - 1;
    }
    end
}

/// The top-level ranges in characters, with their trailing whitespace taken off and the
/// ones left empty by that dropped. `None` where a range's ends do not fall where characters
/// start, or are out of order.
fn covered_ranges(chars: &Vec<char>, starts: &Vec<usize>, ranges: &Vec<(usize, usize)>) -> (kept: Option<Vec<(usize, usize)>>)
    requires
        byte_table(chars@, starts@),
    ensures
        match covered(chars@, ints(ranges@)) {
            Some(c) => kept is Some && ints(kept->0@) == c,
            None => kept is None,
        },
{
    let ghost s = chars@;
    let mut kept: Vec<(usize, usize)> = Vec::new();
    let mut i: usize = 0;
    while i < ranges.len()
        invariant
            s == chars@,
            byte_table(s, starts@),
            0 <= i <= ranges.len(),
            covered(s, ints(ranges@).take(i as int)) == Some(ints(kept@)),
        decreases ranges.len() - i,
    {
        proof {
            assert(ints(ranges@).take(i + 1).drop_last() =~= ints(ranges@).take(i as int));
            assert(ints(ranges@).take(i + 1).last() == (ranges@[i as int].0 as int, ranges@[i as int].1 as int));
        }
        let (first, last) = ranges[i];
        assert(ints(ranges@)[i as int] == (first as int, last as int));
        let a = char_at(starts, first, Ghost(s));
        let b = char_at(starts, last, Ghost(s));
        match (a, b) {
            (Some(a), Some(b)) => {
                if a > b {
                    proof {
                        lemma_covered_fails(s, ints(ranges@), i as int);
                    }
                    return None;
                }
                let end = trim_end(chars, a, b);
                if end > a {
                    proof {
                        lemma_ints_push(kept@, (a, end));
                    }
                    kept.push((a, end));
                }
            },
            _ => {
                proof {
                    lemma_covered_fails(s, ints(ranges@), i as int);
                }
                return None;
            },
        }
        i = i + 1;
    }
    proof {
        assert(ints(ranges@).take(ranges@.len() as int) =~= ints(ranges@));
    }
    Some(kept)
}

/// Once a range cannot be read, no longer list of ranges can.
proof fn lemma_covered_fails(s: Seq<char>, ranges: Seq<(int, int)>, i: int)
    requires
        0 <= i < ranges.len(),
        char_range(s, ranges[i]) is None,
    ensures
        covered(s, ranges) is None,
    decreases ranges.len(),
{
    if i < ranges.len() - 1 {
        assert(ranges.drop_last()[i] == ranges[i]);
        lemma_covered_fails(s, ranges.drop_last(), i);
    }
}

/// `sorted` with `x` put after every range that starts no later than it.
pub open spec fn insert_by_start(sorted: Seq<(int, int)>, x: (int, int)) -> Seq<(int, int)>
    decreases sorted.len(),
{
    if sorted.len() == 0 {
        seq![x]
    } else if sorted.last().0 <= x.0 {
        sorted.push(x)
    } else {
        insert_by_start(sorted.drop_last(), x).push(sorted.last())
    }
}

/// `ranges` ordered by where they start, ranges that start together kept in the order they
/// came in.
pub open spec fn sort_by_start(ranges: Seq<(int, int)>) -> Seq<(int, int)>
    decreases ranges.len(),
{
    if ranges.len() == 0 {
        Seq::empty()
    } else {
        insert_by_start(sort_by_start(ranges.drop_last()), ranges.last())
    }
}

proof fn lemma_insert_at(sorted: Seq<(int, int)>, x: (int, int), p: int)
    requires
        0 <= p <= sorted.len(),
        forall|j: int| p <= j < sorted.len() ==> sorted[j].0 > x.0,
        p == 0 || sorted[p - 1].0 <= x.0,
    ensures
        insert_by_start(sorted, x) == sorted.insert(p, x),
    decreases sorted.len(),
{
    if sorted.len() == 0 {
        assert(sorted.insert(p, x) =~= seq![x]);
    } else if sorted.last().0 <= x.0 {
        assert(sorted.insert(p, x) =~= sorted.push(x));
    } else {
        lemma_insert_at(sorted.drop_last(), x, p);
        assert(sorted.insert(p, x) =~= sorted.drop_last().insert(p, x).push(sorted.last()));
    }
}

/// The ranges ordered by where they start, stably.
fn sort_ranges(ranges: &Vec<(usize, usize)>) -> (sorted: Vec<(usize, usize)>)
    ensures
        ints(sorted@) == sort_by_start(ints(ranges@)),
{
    let mut sorted: Vec<(usize, usize)> = Vec::new();
    let mut i: usize = 0;
    while i < ranges.len()
        invariant
            0 <= i <= ranges.len(),
            ints(sorted@) == sort_by_start(ints(ranges@).take(i as int)),
        decreases ranges.len() - i,
    {
        let x = ranges[i];
        let mut p = sorted.len();
        while p > 0 && sorted[p - 1].0 > x.0
            invariant
                0 <= p <= sorted.len(),
                forall|j: int| p <= j < sorted.len() ==> sorted@[j].0 > x.0,
            decreases p,
        {
            p = p - 1;
        }
        proof {
            let xs = (x.0 as int, x.1 as int);
            assert(ints(ranges@).take(i + 1).drop_last() =~= ints(ranges@).take(i as int));
            assert(ints(ranges@).take(i + 1).last() == xs);
            lemma_insert_at(ints(sorted@), xs, p as int);
            assert(ints(sorted@.insert(p as int, x)) =~= ints(sorted@).insert(p as int, xs));
        }
        sorted.insert(p, x);
        i = i + 1;
    }
    proof {
        assert(ints(ranges@).take(ranges@.len() as int) =~= ints(ranges@));
    }
    sorted
}

/// Each range ends no later than the next one starts.
pub open spec fn chained(ranges: Seq<(int, int)>) -> bool {
    forall|i: int| 0 <= i < ranges.len() - 1 ==> #[trigger] ranges[i].1 <= ranges[i + 1].0
}

/// The first character of `s[a..b]` that is not whitespace, or `b`.
pub open spec fn first_black(s: Seq<char>, a: int, b: int) -> int
    decreases b - a,
{
    if a >= b {
        b
    } else if !white(s[a]) {
        a
    } else {
        first_black(s, a + 1, b)
    }
}

/// The stretch of `s[a..b]` from its first character that is not whitespace to its last,
/// if it has any.
pub open spec fn hull(s: Seq<char>, a: int, b: int) -> Seq<(int, int)> {
    let first = first_black(s, a, b);
    if first >= b {
        Seq::empty()
    } else {
        seq![(first, trim_end_at(s, first, b))]
    }
}

/// Where the text not covered by the first `i` ranges of `c` resumes.
pub open spec fn resume(c: Seq<(int, int)>, i: int) -> int {
    if i == 0 {
        0
    } else {
        c[i - 1].1
    }
}

/// The ranges of `c` with, before each, whatever stands between it and the range before it
/// once the whitespace around that is taken off.
pub open spec fn interleaved(s: Seq<char>, c: Seq<(int, int)>) -> Seq<(int, int)>
    decreases c.len(),
{
    if c.len() == 0 {
        Seq::empty()
    } else {
        interleaved(s, c.drop_last()) + hull(s, resume(c, c.len() - 1), c.last().0) + seq![c.last()]
    }
}

/// The spans that become blocks: the covered ranges, and every stretch of text between them
/// that is not whitespace, in order.
pub open spec fn layout(s: Seq<char>, c: Seq<(int, int)>) -> Seq<(int, int)> {
    interleaved(s, c) + hull(s, resume(c, c.len() as int), s.len() as int)
}

pub proof fn lemma_first_black(s: Seq<char>, a: int, b: int)
    requires
        0 <= a <= b <= s.len(),
    ensures
        a <= first_black(s, a, b) <= b,
        first_black(s, a, b) < b ==> !white(s[first_black(s, a, b)]),
        all_white(s.subrange(a, first_black(s, a, b))),
    decreases b - a,
{
    if a < b && white(s[a]) {
        lemma_first_black(s, a + 1, b);
        let f = first_black(s, a, b);
        assert forall|i: int| 0 <= i < f - a implies white(#[trigger] s.subrange(a, f)[i]) by {
            if i > 0 {
                assert(s.subrange(a, f)[i] == s.subrange(a + 1, f)[i - 1]);
            }
        }
    }
}

/// The first character of `chars[from..to]` that is not whitespace, or `to`.
pub fn skip_whitespace(chars: &Vec<char>, from: usize, to: usize) -> (first: usize)
    requires
        from <= to <= chars.len(),
    ensures
        first == first_black(chars@, from as int, to as int),
{
    let mut first = from;
    while first < to && is_whitespace(chars[first])
        invariant
            from <= first <= to <= chars.len(),
            first_black(chars@, first as int, to as int) == first_black(chars@, from as int, to as int),
        decreases to - first,
    {
        first = first + 1;
    }
    first
}

/// Add the stretch of `chars[from..to]` between its first and last characters that are not
/// whitespace to `spans`, if there is one.
fn add_non_whitespace(chars: &Vec<char>, from: usize, to: usize, spans: &mut Vec<(usize, usize)>)
    requires
        from <= to <= chars.len(),
    ensures
        ints(final(spans)@) == ints(old(spans)@) + hull(chars@, from as int, to as int),
{
    let first = skip_whitespace(chars, from, to);
    if first < to {
        let last = trim_end(chars, first, to);
        proof {
            lemma_ints_push(spans@, (first, last));
        }
        spans.push((first, last));
    } else {
        assert(ints(spans@) + hull(chars@, from as int, to as int) =~= ints(spans@));
    }
}

/// Lay the covered ranges out with the stretches of text between them that are not
/// whitespace. The ranges must be in order and apart.
fn include_unparsed(chars: &Vec<char>, c: &Vec<(usize, usize)>) -> (spans: Vec<(usize, usize)>)
    requires
        chained(ints(c@)),
        forall|i: int| 0 <= i < c.len() ==> c@[i].0 <= #[trigger] c@[i].1 <= chars.len(),
    ensures
        ints(spans@) == layout(chars@, ints(c@)),
{
    let mut spans: Vec<(usize, usize)> = Vec::new();
    let mut end: usize = 0;
    let mut i: usize = 0;
    while i < c.len()
        invariant
            chained(ints(c@)),
            forall|i: int| 0 <= i < c.len() ==> c@[i].0 <= #[trigger] c@[i].1 <= chars.len(),
            0 <= i <= c.len(),
            end == resume(ints(c@), i as int),
            ints(spans@) == interleaved(chars@, ints(c@).take(i as int)),
        decreases c.len() - i,
    {
        let (start, stop) = c[i];
        proof {
            if i > 0 {
                assert(ints(c@)[i - 1].1 <= ints(c@)[(i - 1) + 1].0);
            }
            let t = ints(c@).take(i + 1);
            assert(t.drop_last() =~= ints(c@).take(i as int));
            assert(resume(t, i as int) == resume(ints(c@), i as int));
        }
        add_non_whitespace(chars, end, start, &mut spans);
        proof {
            lemma_ints_push(spans@, (start, stop));
        }
        spans.push((start, stop));
        end = stop;
        i = i + 1;
    }
    proof {
        assert(ints(c@).take(c@.len() as int) =~= ints(c@));
    }
    add_non_whitespace(chars, end, chars.len(), &mut spans);
    spans
}

/// Every range is non-empty and lies within the first `n` characters.
pub open spec fn in_bounds(c: Seq<(int, int)>, n: int) -> bool {
    forall|i: int| 0 <= i < c.len() ==> 0 <= #[trigger] c[i].0 < c[i].1 <= n
}

/// The spans are in bounds and each ends no later than the next one starts.
pub open spec fn ordered(spans: Seq<(int, int)>, n: int) -> bool {
    in_bounds(spans, n) && chained(spans)
}

proof fn lemma_covered_in_bounds(s: Seq<char>, ranges: Seq<(int, int)>)
    ensures
        covered(s, ranges) matches Some(c) ==> in_bounds(c, s.len() as int),
    decreases ranges.len(),
{
    if ranges.len() > 0 {
        lemma_covered_in_bounds(s, ranges.drop_last());
        if let (Some(c), Some(r)) = (covered(s, ranges.drop_last()), char_range(s, ranges.last())) {
            let k0 = choose|k: int| starts_char(s, k, ranges.last().0);
            let k1 = choose|k: int| starts_char(s, k, ranges.last().1);
            lemma_trim_end_at(s, r.0, r.1);
        }
    }
}

proof fn lemma_sort_in_bounds(ranges: Seq<(int, int)>, n: int)
    requires
        in_bounds(ranges, n),
    ensures
        in_bounds(sort_by_start(ranges), n),
        sort_by_start(ranges).len() == ranges.len(),
    decreases ranges.len(),
{
    if ranges.len() > 0 {
        assert(in_bounds(ranges.drop_last(), n));
        lemma_sort_in_bounds(ranges.drop_last(), n);
        lemma_insert_in_bounds(sort_by_start(ranges.drop_last()), ranges.last(), n);
    }
}

proof fn lemma_insert_in_bounds(sorted: Seq<(int, int)>, x: (int, int), n: int)
    requires
        in_bounds(sorted, n),
        0 <= x.0 < x.1 <= n,
    ensures
        in_bounds(insert_by_start(sorted, x), n),
        insert_by_start(sorted, x).len() == sorted.len() + 1,
    decreases sorted.len(),
{
    let r = insert_by_start(sorted, x);
    if sorted.len() > 0 && sorted.last().0 > x.0 {
        assert(in_bounds(sorted.drop_last(), n));
        lemma_insert_in_bounds(sorted.drop_last(), x, n);
        let left = insert_by_start(sorted.drop_last(), x);
        assert forall|i: int| 0 <= i < r.len() implies 0 <= #[trigger] r[i].0 < r[i].1 <= n by {
            if i < left.len() {
                assert(r[i] == left[i]);
            }
        }
    } else {
        assert forall|i: int| 0 <= i < r.len() implies 0 <= #[trigger] r[i].0 < r[i].1 <= n by {
            if i < sorted.len() {
                assert(r[i] == sorted[i]);
            }
        }
    }
}

proof fn lemma_trim_end_past(s: Seq<char>, a: int, b: int)
    requires
        0 <= a < b <= s.len(),
        !white(s[a]),
    ensures
        trim_end_at(s, a, b) > a,
    decreases b - a,
{
    if white(s[b - 1]) {
        lemma_trim_end_past(s, a, b - 1);
    }
}

proof fn lemma_hull(s: Seq<char>, a: int, b: int)
    requires
        0 <= a <= b <= s.len(),
    ensures
        hull(s, a, b).len() <= 1,
        hull(s, a, b).len() == 1 ==> a <= hull(s, a, b)[0].0 < hull(s, a, b)[0].1 <= b,
{
    lemma_first_black(s, a, b);
    let f = first_black(s, a, b);
    if f < b {
        lemma_trim_end_at(s, f, b);
        lemma_trim_end_past(s, f, b);
    }
}

/// Laid out, the spans are in bounds and in order, and the last of them ends no later than
/// where the text after the covered ranges resumes.
proof fn lemma_interleaved_ordered(s: Seq<char>, c: Seq<(int, int)>)
    requires
        ordered(c, s.len() as int),
    ensures
        ordered(interleaved(s, c), s.len() as int),
        interleaved(s, c).len() > 0 ==> interleaved(s, c).last().1 == resume(c, c.len() as int),
    decreases c.len(),
{
    if c.len() > 0 {
        let prev = c.drop_last();
        assert(ordered(prev, s.len() as int));
        lemma_interleaved_ordered(s, prev);
        let from = resume(c, c.len() - 1);
        assert(resume(prev, prev.len() as int) == from);
        if c.len() > 1 {
            assert(c[c.len() - 2].1 <= c[(c.len() - 2) + 1].0);
        }
        lemma_hull(s, from, c.last().0);
        let left = interleaved(s, prev);
        let mid = hull(s, from, c.last().0);
        let all = left + mid + seq![c.last()];
        assert(all == interleaved(s, c));
        assert forall|i: int| 0 <= i < all.len() - 1 implies #[trigger] all[i].1 <= all[i + 1].0 by {
            if i < left.len() - 1 {
                assert(left[i].1 <= left[i + 1].0);
            }
        }
    }
}

proof fn lemma_layout_ordered(s: Seq<char>, c: Seq<(int, int)>)
    requires
        ordered(c, s.len() as int),
    ensures
        ordered(layout(s, c), s.len() as int),
{
    lemma_interleaved_ordered(s, c);
    let left = interleaved(s, c);
    let from = resume(c, c.len() as int);
    if c.len() > 0 {
        assert(c[c.len() - 1].1 <= s.len());
    }
    lemma_hull(s, from, s.len() as int);
    let all = layout(s, c);
    assert forall|i: int| 0 <= i < all.len() - 1 implies #[trigger] all[i].1 <= all[i + 1].0 by {
        if i < left.len() - 1 {
            assert(left[i].1 <= left[i + 1].0);
        }
    }
}

/// The spans that become blocks, if the parser's events can be laid out as blocks.
/// `None` where a plain reading of them would not get through: an element closed that was
/// never opened, a range whose ends are not where characters start, or two top-level ranges
/// that overlap.
pub open spec fn block_spans(s: Seq<char>, pieces: Seq<Piece>) -> Option<Seq<(int, int)>> {
    if !never_underflows(pieces) {
        None
    } else {
        match covered(s, top_ranges(pieces)) {
            None => None,
            Some(c) => if chained(sort_by_start(c)) {
                Some(layout(s, sort_by_start(c)))
            } else {
                None
            },
        }
    }
}

/// The blocks: each span's text, or the whole text when there are no spans.
pub open spec fn blocks_of(s: Seq<char>, spans: Seq<(int, int)>) -> Seq<Seq<char>> {
    if spans.len() == 0 {
        seq![s]
    } else {
        Seq::new(spans.len(), |i: int| s.subrange(spans[i].0, spans[i].1))
    }
}

/// The source around the blocks: before the first, between each pair, after the last.
pub open spec fn gaps_of(s: Seq<char>, spans: Seq<(int, int)>) -> Seq<Seq<char>> {
    if spans.len() == 0 {
        seq![Seq::empty(), Seq::empty()]
    } else {
        Seq::new(
            spans.len() + 1,
            |i: int|
                s.subrange(
                    if i == 0 { 0 } else { spans[i - 1].1 },
                    if i == spans.len() { s.len() as int } else { spans[i].0 },
                ),
        )
    }
}

/// The texts of some strings.
pub open spec fn views(v: Seq<String>) -> Seq<Seq<char>> {
    v.map_values(|x: String| x@)
}

/// Top-level Markdown blocks and the source between them. `gaps` has one more item than
/// `blocks`: before the first block, between each pair, and after the last. Joining them
/// recreates the input byte for byte.
#[derive(Debug, PartialEq, Eq)]
pub struct Segments {
    pub blocks: Vec<String>,
    pub gaps: Vec<String>,
}

/// Whether each range ends no later than the next one starts.
fn is_chained(ranges: &Vec<(usize, usize)>) -> (b: bool)
    ensures
        b == chained(ints(ranges@)),
{
    let mut i: usize = 1;
    while i < ranges.len()
        invariant
            1 <= i,
            forall|j: int| 0 <= j < i - 1 && j < ranges.len() - 1 ==> #[trigger] ints(ranges@)[j].1
                <= ints(ranges@)[j + 1].0,
        decreases ranges.len() - i,
    {
        if ranges[i - 1].1 > ranges[i].0 {
            assert(!(ints(ranges@)[i - 1].1 <= ints(ranges@)[(i - 1) + 1].0));
            return false;
        }
        i = i + 1;
    }
    true
}

/// Cut `text` at `spans` into blocks and the gaps around them.
fn cut(text: &str, spans: &Vec<(usize, usize)>) -> (segments: Segments)
    requires
        ordered(ints(spans@), text@.len() as int),
    ensures
        views(segments.blocks@) == blocks_of(text@, ints(spans@)),
        views(segments.gaps@) == gaps_of(text@, ints(spans@)),
{
    broadcast use vstd::string::group_string_axioms;

    let ghost s = text@;
    let n = text.unicode_len();
    let mut blocks: Vec<String> = Vec::new();
    let mut gaps: Vec<String> = Vec::new();
    if spans.len() == 0 {
        blocks.push(text.to_string());
        gaps.push(String::new());
        gaps.push(String::new());
        assert(views(blocks@) =~= blocks_of(s, ints(spans@)));
        assert(views(gaps@) =~= gaps_of(s, ints(spans@)));
        return Segments { blocks, gaps };
    }
    let mut from: usize = 0;
    let mut i: usize = 0;
    while i < spans.len()
        invariant
            s == text@,
            n == s.len(),
            spans.len() > 0,
            ordered(ints(spans@), n as int),
            0 <= i <= spans.len(),
            from == if i == 0 { 0 } else { spans@[i - 1].1 as int },
            blocks.len() == i,
            gaps.len() == i,
            forall|j: int| 0 <= j < i ==> views(blocks@)[j] == #[trigger] blocks_of(s, ints(spans@))[j],
            forall|j: int| 0 <= j < i ==> views(gaps@)[j] == #[trigger] gaps_of(s, ints(spans@))[j],
        decreases spans.len() - i,
    {
        let (start, end) = spans[i];
        proof {
            assert(ints(spans@)[i as int] == (start as int, end as int));
            if i > 0 {
                assert(ints(spans@)[i - 1].1 <= ints(spans@)[(i - 1) + 1].0);
            }
        }
        let gap = text.substring_char(from, start).to_string();
        let block = text.substring_char(start, end).to_string();
        gaps.push(gap);
        blocks.push(block);
        from = end;
        i = i + 1;
    }
    assert(ints(spans@)[i - 1].1 <= n);
    gaps.push(text.substring_char(from, n).to_string());
    assert(views(blocks@) =~= blocks_of(s, ints(spans@)));
    assert(views(gaps@) =~= gaps_of(s, ints(spans@)));
    Segments { blocks, gaps }
}

/// Split `source` into blocks at the events the parser reported for it. `None` where the
/// events cannot be laid out as blocks: see [`block_spans`].
pub fn segments_from(source: &str, pieces: &Vec<Piece>) -> (segments: Option<Segments>)
    ensures
        match block_spans(source@, pieces@) {
            Some(spans) => segments matches Some(r) && views(r.blocks@) == blocks_of(source@, spans)
                && views(r.gaps@) == gaps_of(source@, spans),
            None => segments is None,
        },
{
    let ranges = match semantic_ranges(pieces) {
        Some(ranges) => ranges,
        None => return None,
    };
    let chars = chars_of(source);
    let starts = byte_starts(source, &chars);
    let c = match covered_ranges(&chars, &starts, &ranges) {
        Some(c) => c,
        None => return None,
    };
    let sorted = sort_ranges(&c);
    if !is_chained(&sorted) {
        return None;
    }
    proof {
        lemma_covered_in_bounds(chars@, ints(ranges@));
        lemma_sort_in_bounds(ints(c@), chars@.len() as int);
        assert forall|i: int| 0 <= i < sorted.len() implies sorted@[i].0 <= #[trigger] sorted@[i].1 <= chars.len() by {
            assert(ints(sorted@)[i] == (sorted@[i].0 as int, sorted@[i].1 as int));
        }
        lemma_layout_ordered(chars@, ints(sorted@));
    }
    let spans = include_unparsed(&chars, &sorted);
    Some(cut(source, &spans))
}

/// The whole text as its one block.
pub open spec fn whole(s: Seq<char>) -> (Seq<Seq<char>>, Seq<Seq<char>>) {
    (seq![s], seq![Seq::empty(), Seq::empty()])
}

/// What [`segments`] makes of `s`: the blocks and the gaps around them.
pub open spec fn segmented(s: Seq<char>) -> (Seq<Seq<char>>, Seq<Seq<char>>) {
    match block_spans(s, parsed(s)) {
        Some(spans) => (blocks_of(s, spans), gaps_of(s, spans)),
        None => whole(s),
    }
}

/// Split Markdown while retaining every byte outside its semantic blocks. The parser
/// deliberately emits no event for some source, notably reference definitions: any such
/// stretch that is not whitespace becomes a block of its own rather than disappearing on
/// save. Where the parser's events cannot be laid out as blocks the whole source is one.
pub fn segments(source: &str) -> (segments: Segments)
    ensures
        (views(segments.blocks@), views(segments.gaps@)) == segmented(source@),
{
    let pieces = parse_pieces(source);
    match segments_from(source, &pieces) {
        Some(segments) => segments,
        None => {
            broadcast use vstd::string::group_string_axioms;

            let blocks = vec![source.to_string()];
            let gaps = vec![String::new(), String::new()];
            assert(views(blocks@) =~= seq![source@]);
            assert(views(gaps@) =~= seq![Seq::<char>::empty(), Seq::<char>::empty()]);
            Segments { blocks, gaps }
        },
    }
}

/// The gaps and blocks put back together: the first gap, then each block followed by the gap
/// after it.
pub open spec fn joined(blocks: Seq<Seq<char>>, gaps: Seq<Seq<char>>) -> Seq<char>
    decreases blocks.len(),
{
    if blocks.len() == 0 {
        gaps[0]
    } else {
        joined(blocks.drop_last(), gaps.drop_last()) + blocks.last() + gaps.last()
    }
}

/// Every span ends with a character that is not whitespace.
pub open spec fn inked(s: Seq<char>, c: Seq<(int, int)>) -> bool {
    forall|i: int| 0 <= i < c.len() ==> 0 < #[trigger] c[i].1 <= s.len() && !white(s[c[i].1 - 1])
}

/// No span covers position `p`.
pub open spec fn uncovered(spans: Seq<(int, int)>, p: int) -> bool {
    forall|i: int| 0 <= i < spans.len() ==> !(#[trigger] spans[i].0 <= p && p < spans[i].1)
}

/// Every character of `s` before `upto` that no span covers is whitespace.
pub open spec fn rest_white(s: Seq<char>, spans: Seq<(int, int)>, upto: int) -> bool {
    forall|p: int| 0 <= p < upto && uncovered(spans, p) ==> white(#[trigger] s[p])
}

proof fn lemma_covered_inked(s: Seq<char>, ranges: Seq<(int, int)>)
    ensures
        covered(s, ranges) matches Some(c) ==> inked(s, c),
    decreases ranges.len(),
{
    if ranges.len() > 0 {
        lemma_covered_inked(s, ranges.drop_last());
        if let (Some(c), Some(r)) = (covered(s, ranges.drop_last()), char_range(s, ranges.last())) {
            let k0 = choose|k: int| starts_char(s, k, ranges.last().0);
            let k1 = choose|k: int| starts_char(s, k, ranges.last().1);
            lemma_trim_end_at(s, r.0, r.1);
        }
    }
}

proof fn lemma_insert_inked(s: Seq<char>, sorted: Seq<(int, int)>, x: (int, int))
    requires
        inked(s, sorted),
        0 < x.1 <= s.len() && !white(s[x.1 - 1]),
    ensures
        inked(s, insert_by_start(sorted, x)),
    decreases sorted.len(),
{
    let r = insert_by_start(sorted, x);
    if sorted.len() > 0 && sorted.last().0 > x.0 {
        assert(inked(s, sorted.drop_last()));
        lemma_insert_inked(s, sorted.drop_last(), x);
        let left = insert_by_start(sorted.drop_last(), x);
        assert forall|i: int| 0 <= i < r.len() implies 0 < #[trigger] r[i].1 <= s.len() && !white(s[r[i].1 - 1]) by {
            if i < left.len() {
                assert(r[i] == left[i]);
            }
        }
    } else {
        assert forall|i: int| 0 <= i < r.len() implies 0 < #[trigger] r[i].1 <= s.len() && !white(s[r[i].1 - 1]) by {
            if i < sorted.len() {
                assert(r[i] == sorted[i]);
            }
        }
    }
}

proof fn lemma_sort_inked(s: Seq<char>, ranges: Seq<(int, int)>)
    requires
        inked(s, ranges),
    ensures
        inked(s, sort_by_start(ranges)),
    decreases ranges.len(),
{
    if ranges.len() > 0 {
        assert(inked(s, ranges.drop_last()));
        lemma_sort_inked(s, ranges.drop_last());
        lemma_insert_inked(s, sort_by_start(ranges.drop_last()), ranges.last());
    }
}

/// What the hull of `s[a..b]` leaves out is whitespace, and the hull ends in ink.
proof fn lemma_hull_rest(s: Seq<char>, a: int, b: int)
    requires
        0 <= a <= b <= s.len(),
    ensures
        forall|p: int|
            a <= p < b && (hull(s, a, b).len() == 0 || !(hull(s, a, b)[0].0 <= p < hull(s, a, b)[0].1))
                ==> white(#[trigger] s[p]),
        inked(s, hull(s, a, b)),
{
    lemma_first_black(s, a, b);
    let f = first_black(s, a, b);
    assert forall|p: int| a <= p < f implies white(#[trigger] s[p]) by {
        assert(s.subrange(a, f)[p - a] == s[p]);
    }
    if f < b {
        lemma_trim_end_at(s, f, b);
        lemma_trim_end_past(s, f, b);
        let e = trim_end_at(s, f, b);
        assert forall|p: int| e <= p < b implies white(#[trigger] s[p]) by {
            assert(s.subrange(e, b)[p - e] == s[p]);
        }
    }
}

proof fn lemma_interleaved_rest(s: Seq<char>, c: Seq<(int, int)>)
    requires
        ordered(c, s.len() as int),
        inked(s, c),
    ensures
        rest_white(s, interleaved(s, c), resume(c, c.len() as int)),
        inked(s, interleaved(s, c)),
        forall|i: int| 0 <= i < interleaved(s, c).len() ==> #[trigger] interleaved(s, c)[i].1 <= resume(c, c.len() as int),
    decreases c.len(),
{
    if c.len() > 0 {
        let prev = c.drop_last();
        assert(ordered(prev, s.len() as int));
        assert(inked(s, prev));
        lemma_interleaved_rest(s, prev);
        let from = resume(c, c.len() - 1);
        assert(resume(prev, prev.len() as int) == from);
        if c.len() > 1 {
            assert(c[c.len() - 2].1 <= c[(c.len() - 2) + 1].0);
        }
        lemma_hull(s, from, c.last().0);
        lemma_hull_rest(s, from, c.last().0);
        let left = interleaved(s, prev);
        let mid = hull(s, from, c.last().0);
        let all = left + mid + seq![c.last()];
        assert(all == interleaved(s, c));
        assert forall|p: int|
            0 <= p < resume(c, c.len() as int) && uncovered(all, p)
            implies white(#[trigger] s[p]) by {
            if p < from {
                assert forall|i: int| 0 <= i < left.len() implies !(#[trigger] left[i].0 <= p && p < left[i].1) by {
                    assert(all[i] == left[i]);
                }
            } else if p < c.last().0 {
                if mid.len() > 0 {
                    assert(all[left.len() as int] == mid[0]);
                }
            } else {
                assert(all[all.len() - 1] == c.last());
            }
        }
        assert forall|i: int| 0 <= i < all.len() implies 0 < #[trigger] all[i].1 <= s.len() && !white(s[all[i].1 - 1]) by {
            if i < left.len() {
                assert(all[i] == left[i]);
            } else if i < left.len() + mid.len() {
                assert(all[i] == mid[i - left.len()]);
            }
        }
        assert forall|i: int| 0 <= i < all.len() implies #[trigger] all[i].1 <= resume(c, c.len() as int) by {
            if i < left.len() {
                assert(all[i] == left[i]);
            } else if i < left.len() + mid.len() {
                assert(all[i] == mid[i - left.len()]);
            }
        }
    }
}

/// Laid out, the spans leave nothing but whitespace uncovered, and each ends in ink.
proof fn lemma_layout_rest(s: Seq<char>, c: Seq<(int, int)>)
    requires
        ordered(c, s.len() as int),
        inked(s, c),
    ensures
        rest_white(s, layout(s, c), s.len() as int),
        inked(s, layout(s, c)),
{
    lemma_interleaved_rest(s, c);
    let left = interleaved(s, c);
    let from = resume(c, c.len() as int);
    if c.len() > 0 {
        assert(c[c.len() - 1].1 <= s.len());
    }
    lemma_hull(s, from, s.len() as int);
    lemma_hull_rest(s, from, s.len() as int);
    let tail = hull(s, from, s.len() as int);
    let all = layout(s, c);
    assert forall|p: int|
        0 <= p < s.len() && uncovered(all, p)
        implies white(#[trigger] s[p]) by {
        if p < from {
            assert forall|i: int| 0 <= i < left.len() implies !(#[trigger] left[i].0 <= p && p < left[i].1) by {
                assert(all[i] == left[i]);
            }
        } else if tail.len() > 0 {
            assert(all[left.len() as int] == tail[0]);
        }
    }
    assert forall|i: int| 0 <= i < all.len() implies 0 < #[trigger] all[i].1 <= s.len() && !white(s[all[i].1 - 1]) by {
        if i < left.len() {
            assert(all[i] == left[i]);
        } else {
            assert(all[i] == tail[i - left.len()]);
        }
    }
}

/// What holds of the spans [`block_spans`] finds: they are in order, leave nothing but
/// whitespace uncovered, and each ends in ink.
proof fn lemma_block_spans(s: Seq<char>, pieces: Seq<Piece>)
    ensures
        block_spans(s, pieces) matches Some(f) ==> ordered(f, s.len() as int) && inked(s, f) && rest_white(s, f, s.len() as int),
{
    if let Some(f) = block_spans(s, pieces) {
        let c = covered(s, top_ranges(pieces))->0;
        lemma_covered_in_bounds(s, top_ranges(pieces));
        lemma_covered_inked(s, top_ranges(pieces));
        lemma_sort_in_bounds(c, s.len() as int);
        lemma_sort_inked(s, c);
        lemma_layout_ordered(s, sort_by_start(c));
        lemma_layout_rest(s, sort_by_start(c));
    }
}

proof fn lemma_cut_rejoins(s: Seq<char>, f: Seq<(int, int)>, i: int)
    requires
        ordered(f, s.len() as int),
        f.len() > 0,
        0 <= i <= f.len(),
    ensures
        joined(blocks_of(s, f).take(i), gaps_of(s, f).take(i + 1)) == s.subrange(
            0,
            if i < f.len() { f[i].0 } else { s.len() as int },
        ),
    decreases i,
{
    let blocks = blocks_of(s, f);
    let gaps = gaps_of(s, f);
    if i == 0 {
        assert(gaps.take(1)[0] == gaps[0]);
    } else {
        lemma_cut_rejoins(s, f, i - 1);
        assert(blocks.take(i).drop_last() =~= blocks.take(i - 1));
        assert(gaps.take(i + 1).drop_last() =~= gaps.take(i));
        let end = if i < f.len() { f[i].0 } else { s.len() as int };
        if i < f.len() {
            assert(f[i - 1].1 <= f[(i - 1) + 1].0);
        }
        assert(s.subrange(0, f[i - 1].0) + s.subrange(f[i - 1].0, f[i - 1].1) + s.subrange(f[i - 1].1, end)
            =~= s.subrange(0, end));
    }
}

/// Joining the gaps and blocks that [`segments`] splits a source into gives the source
/// back, byte for byte; there is always a block, and one gap more than there are blocks.
pub proof fn law_segments_rejoin(s: Seq<char>)
    ensures
        segmented(s).0.len() >= 1,
        segmented(s).1.len() == segmented(s).0.len() + 1,
        joined(segmented(s).0, segmented(s).1) == s,
{
    lemma_block_spans(s, parsed(s));
    match block_spans(s, parsed(s)) {
        Some(f) => if f.len() > 0 {
            lemma_cut_rejoins(s, f, f.len() as int);
            assert(blocks_of(s, f).take(f.len() as int) =~= blocks_of(s, f));
            assert(gaps_of(s, f).take(f.len() as int + 1) =~= gaps_of(s, f));
            assert(s.subrange(0, s.len() as int) =~= s);
        } else {
            reveal_with_fuel(joined, 2);
            assert(Seq::<char>::empty() + s + Seq::<char>::empty() =~= s);
        },
        None => {
            reveal_with_fuel(joined, 2);
            assert(Seq::<char>::empty() + s + Seq::<char>::empty() =~= s);
        },
    }
}

/// The gaps around ordered spans that leave only whitespace uncovered are whitespace.
proof fn lemma_gaps_white(s: Seq<char>, f: Seq<(int, int)>)
    requires
        ordered(f, s.len() as int),
        rest_white(s, f, s.len() as int),
        f.len() > 0,
    ensures
        forall|i: int| 0 <= i < gaps_of(s, f).len() ==> all_white(#[trigger] gaps_of(s, f)[i]),
{
    let gaps = gaps_of(s, f);
    assert forall|i: int| 0 <= i < gaps.len() implies all_white(#[trigger] gaps[i]) by {
        lemma_gap_white(s, f, i);
    }
}

proof fn lemma_gap_white(s: Seq<char>, f: Seq<(int, int)>, i: int)
    requires
        ordered(f, s.len() as int),
        rest_white(s, f, s.len() as int),
        f.len() > 0,
        0 <= i <= f.len(),
    ensures
        all_white(gaps_of(s, f)[i]),
{
    let gaps = gaps_of(s, f);
    let lo = if i == 0 { 0 } else { f[i - 1].1 };
    let hi = if i == f.len() { s.len() as int } else { f[i].0 };
    if 0 < i < f.len() {
        assert(f[i - 1].1 <= f[(i - 1) + 1].0);
    }
    if i > 0 {
        let q = f[i - 1].0;
        assert(0 <= q < f[i - 1].1 <= s.len());
    }
    if i < f.len() {
        let q = f[i].0;
        assert(0 <= q < f[i].1 <= s.len());
    }
    assert(0 <= lo <= hi <= s.len());
    assert(gaps[i] == s.subrange(lo, hi));
    assert forall|j: int| 0 <= j < gaps[i].len() implies white(#[trigger] gaps[i][j]) by {
        let p = lo + j;
        assert(gaps[i][j] == s[p]);
        assert forall|k: int| 0 <= k < f.len() implies !(#[trigger] f[k].0 <= p && p < f[k].1) by {
            if k < i {
                lemma_chained_far(f, k, i - 1);
            } else if k > i {
                lemma_chained_far(f, i, k);
            }
        }
    }
}

/// Spans that each end in ink make blocks none of which is blank.
proof fn lemma_blocks_inked(s: Seq<char>, f: Seq<(int, int)>)
    requires
        ordered(f, s.len() as int),
        inked(s, f),
        f.len() > 0,
    ensures
        forall|i: int| 0 <= i < blocks_of(s, f).len() ==> !all_white(#[trigger] blocks_of(s, f)[i]),
{
    let blocks = blocks_of(s, f);
    assert forall|i: int| 0 <= i < blocks.len() implies !all_white(#[trigger] blocks[i]) by {
        assert(blocks[i] == s.subrange(f[i].0, f[i].1));
        assert(blocks[i][f[i].1 - 1 - f[i].0] == s[f[i].1 - 1]);
    }
}

/// Nothing but whitespace stands between the blocks [`segments`] finds, and no block is
/// blank unless it is the whole (blank) source on its own.
pub proof fn law_gaps_are_whitespace(s: Seq<char>)
    ensures
        forall|i: int| 0 <= i < segmented(s).1.len() ==> all_white(#[trigger] segmented(s).1[i]),
        segmented(s).0.len() > 1 ==> forall|i: int|
            0 <= i < segmented(s).0.len() ==> !all_white(#[trigger] segmented(s).0[i]),
{
    lemma_block_spans(s, parsed(s));
    match block_spans(s, parsed(s)) {
        Some(f) => {
            if f.len() > 0 {
                lemma_gaps_white(s, f);
                lemma_blocks_inked(s, f);
            } else {
                assert(all_white(Seq::<char>::empty()));
            }
        },
        None => {
            assert(all_white(Seq::<char>::empty()));
        },
    }
}

/// In chained spans, an earlier one ends no later than a later one starts.
proof fn lemma_chained_far(f: Seq<(int, int)>, i: int, j: int)
    requires
        chained(f),
        forall|k: int| 0 <= k < f.len() ==> #[trigger] f[k].0 <= f[k].1,
        0 <= i <= j < f.len(),
    ensures
        f[i].1 <= f[j].0 || i == j,
        i < j ==> f[i].1 <= f[j].0,
    decreases j - i,
{
    if i < j {
        assert(f[j - 1].1 <= f[(j - 1) + 1].0);
        if i < j - 1 {
            lemma_chained_far(f, i, j - 1);
        }
    }
}

} // verus!
