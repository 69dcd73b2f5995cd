//! What each character of a block being edited is part of, worked out from the same
//! Markdown parser that splits the document into blocks. The highlighter that draws it knows
//! nothing about Markdown: it is handed one number per UTF-16 unit and paints it.

use vstd::prelude::*;
use crate::block::{lemma_line_end, line_end};
use crate::markdown::{element_named, element_of, parse_pieces, parsed, Element, Event, Piece};
use crate::parse::{byte_starts, byte_table, first_black, skip_whitespace};
use crate::text::{chars_of, len_utf16, lemma_str_len, lemma_take_push, unit_to_byte, byte_offset, utf16_len, utf16_width, utf8_len};

verus! {

/// Bold text.
pub const BOLD: u16 = 1;
/// Italic text.
pub const ITALIC: u16 = 2;
/// Inline code.
pub const CODE: u16 = 4;
/// Struck-through text.
pub const STRIKE: u16 = 8;
/// A link or an image.
pub const LINK: u16 = 16;
/// A syntax marker with the cursor beside it: left legible, and muted.
pub const MARKER: u16 = 32;
/// A syntax marker away from the cursor: squeezed away to nothing.
pub const HIDDEN: u16 = 64;
/// Not prose (code, a link, an address): the checker's marks keep off it.
pub const UNCHECKED: u16 = 16384;

/// What delimits a span, and so what of it is a marker rather than the thing itself.
#[derive(Clone, Copy, Debug, PartialEq, Eq, Structural)]
pub enum Delimiters {
    /// Nothing. A paragraph is made of its contents and no more.
    Plain,
    /// A marker in front and nothing behind (a bullet, a heading's hashes). It stays legible
    /// wherever the cursor is: it is how the line reads, not punctuation.
    Ahead,
    /// A marker either side: emphasis, a link. These shrink away unless the cursor is
    /// inside the span they belong to.
    Around,
}

/// A span that has opened and not yet closed.
#[derive(Clone, Copy, Debug)]
pub struct Frame {
    pub start: usize,
    pub end: usize,
    pub bits: u16,
    pub delimiters: Delimiters,
    /// Where this span's contents begin and end, as its children report themselves. What is
    /// left over at either edge is the marker.
    pub content: Option<(usize, usize)>,
}

/// `bytes` with `bits` added over `start..end`, cut to the bytes there are.
pub open spec fn marked(bytes: Seq<u16>, start: int, end: int, bits: u16) -> Seq<u16> {
    let stop = if end < bytes.len() { end } else { bytes.len() as int };
    let from = if start < stop { start } else { stop };
    Seq::new(bytes.len(), |i: int| if from <= i < stop { bytes[i] | bits } else { bytes[i] })
}

/// Add `bits` to every byte of `start..end` there is.
pub fn mark(bytes: &mut Vec<u16>, start: usize, end: usize, bits: u16)
    ensures
        final(bytes)@ == marked(old(bytes)@, start as int, end as int, bits),
{
    let stop = if end < bytes.len() { end } else { bytes.len() };
    let mut i = if start < stop { start } else { stop };
    let ghost from = i;
    let ghost before = bytes@;
    while i < stop
        invariant
            bytes@.len() == before.len(),
            stop <= before.len(),
            from <= i <= stop,
            forall|j: int| 0 <= j < before.len() ==> #[trigger] bytes@[j] == if from <= j < i {
                before[j] | bits
            } else {
                before[j]
            },
        decreases stop - i,
    {
        let value = bytes[i] | bits;
        bytes.set(i, value);
        i = i + 1;
    }
    assert(bytes@ =~= marked(before, start as int, end as int, bits));
}

/// How a marker belonging to the span `start..end` is drawn: legible while the cursor is
/// inside the span or at its end, squeezed away the moment it leaves.
pub open spec fn marker_for(cursor: Option<usize>, start: int, end: int) -> u16 {
    match cursor {
        Some(at) => if (start <= at && at < end) || at == end {
            MARKER
        } else {
            HIDDEN
        },
        None => HIDDEN,
    }
}

/// How a marker belonging to the span `start..end` is drawn.
pub fn marker_bits(cursor: Option<usize>, start: usize, end: usize) -> (bits: u16)
    ensures
        bits == marker_for(cursor, start as int, end as int),
{
    match cursor {
        Some(at) => if (start <= at && at < end) || at == end {
            MARKER
        } else {
            HIDDEN
        },
        None => HIDDEN,
    }
}

/// Everything the open spans give what is inside them.
pub open spec fn inherited_bits(stack: Seq<Frame>) -> u16
    decreases stack.len(),
{
    if stack.len() == 0 {
        0
    } else {
        inherited_bits(stack.drop_last()) | stack.last().bits
    }
}

/// Everything the open spans give what is inside them.
pub fn inherited(stack: &Vec<Frame>) -> (bits: u16)
    ensures
        bits == inherited_bits(stack@),
{
    let mut bits: u16 = 0;
    let mut i: usize = 0;
    while i < stack.len()
        invariant
            0 <= i <= stack.len(),
            bits == inherited_bits(stack@.take(i as int)),
        decreases stack.len() - i,
    {
        proof {
            assert(stack@.take(i + 1).drop_last() =~= stack@.take(i as int));
        }
        bits = bits | stack[i].bits;
        i = i + 1;
    }
    assert(stack@.take(stack@.len() as int) =~= stack@);
    bits
}

/// What an element gives its contents, and what delimits it.
pub open spec fn shape_of(element: Element) -> (u16, Delimiters) {
    match element {
        Element::Strong => (BOLD, Delimiters::Around),
        Element::Emphasis => (ITALIC, Delimiters::Around),
        Element::Strikethrough => (STRIKE, Delimiters::Around),
        Element::Link | Element::Image => (LINK | UNCHECKED, Delimiters::Around),
        Element::Heading | Element::Item => (0, Delimiters::Ahead),
        _ => (0, Delimiters::Plain),
    }
}

/// What an element gives its contents, and what delimits it. A link is an address as much
/// as it is words: nothing in it is spelled wrong.
pub fn shape(element: Element) -> (shape: (u16, Delimiters))
    ensures
        shape == shape_of(element),
{
    match element {
        Element::Strong => (BOLD, Delimiters::Around),
        Element::Emphasis => (ITALIC, Delimiters::Around),
        Element::Strikethrough => (STRIKE, Delimiters::Around),
        Element::Link | Element::Image => (LINK | UNCHECKED, Delimiters::Around),
        Element::Heading | Element::Item => (0, Delimiters::Ahead),
        _ => (0, Delimiters::Plain),
    }
}

/// The stack with `start..end` taken into the contents of the span on top.
pub open spec fn with_child(stack: Seq<Frame>, start: usize, end: usize) -> Seq<Frame> {
    if stack.len() == 0 {
        stack
    } else {
        let top = stack.last();
        let content = match top.content {
            Some((a, b)) => (if start < a { start } else { a }, if end > b { end } else { b }),
            None => (start, end),
        };
        stack.update(stack.len() - 1, Frame { content: Some(content), ..top })
    }
}

/// Take `start..end` into the contents of the span it sits inside, so that what is left of
/// that span at either edge is its markers.
pub fn note_child(stack: &mut Vec<Frame>, start: usize, end: usize)
    ensures
        final(stack)@ == with_child(old(stack)@, start, end),
{
    let n = stack.len();
    if n == 0 {
        return;
    }
    let top = stack[n - 1];
    let content = match top.content {
        Some((a, b)) => (if start < a { start } else { a }, if end > b { end } else { b }),
        None => (start, end),
    };
    stack.set(n - 1, Frame { content: Some(content), ..top });
}

/// `bytes` with the markers of a span that has just closed marked.
pub open spec fn delimited(frame: Frame, cursor: Option<usize>, bytes: Seq<u16>) -> Seq<u16> {
    match frame.content {
        None => bytes,
        Some((a, b)) => match frame.delimiters {
            Delimiters::Plain => bytes,
            Delimiters::Ahead => marked(bytes, frame.start as int, a as int, MARKER),
            Delimiters::Around => {
                let bits = marker_for(cursor, frame.start as int, frame.end as int);
                marked(marked(bytes, frame.start as int, a as int, bits), b as int, frame.end as int, bits)
            },
        },
    }
}

/// Mark the markers of a span that has just closed.
pub fn mark_delimiters(frame: &Frame, cursor: Option<usize>, bytes: &mut Vec<u16>)
    ensures
        final(bytes)@ == delimited(*frame, cursor, old(bytes)@),
{
    if let Some((a, b)) = frame.content {
        match frame.delimiters {
            Delimiters::Plain => {},
            Delimiters::Ahead => mark(bytes, frame.start, a, MARKER),
            Delimiters::Around => {
                let bits = marker_bits(cursor, frame.start, frame.end);
                mark(bytes, frame.start, a, bits);
                mark(bytes, b, frame.end, bits);
            },
        }
    }
}

/// How many backticks run from `from` on, before `to`.
pub open spec fn ticks_ahead(source: Seq<u8>, from: int, to: int) -> int
    decreases to - from,
{
    if from >= to || source[from] != 96u8 {
        0
    } else {
        1 + ticks_ahead(source, from + 1, to)
    }
}

/// How many backticks run back from `to`, not past `from`.
pub open spec fn ticks_behind(source: Seq<u8>, from: int, to: int) -> int
    decreases to - from,
{
    if from >= to || source[to - 1] != 96u8 {
        0
    } else {
        1 + ticks_behind(source, from, to - 1)
    }
}

/// Where an inline code span's text runs: the span cut to the text.
pub open spec fn clipped(source: Seq<u8>, start: int, end: int) -> (int, int) {
    let stop = if end < source.len() { end } else { source.len() as int };
    (if start < stop { start } else { stop }, stop)
}

/// `bytes` with an inline code span marked: code throughout, and the runs of backticks at
/// either end as markers, unless the span is nothing but backticks.
pub open spec fn code_marked(source: Seq<u8>, cursor: Option<usize>, inherited: u16, start: int, end: int, bytes: Seq<u16>) -> Seq<u16> {
    let body = marked(bytes, start, end, inherited | CODE | UNCHECKED);
    let (from, stop) = clipped(source, start, end);
    let open = ticks_ahead(source, from, stop);
    let close = ticks_behind(source, from, stop);
    if open + close < stop - from {
        let bits = marker_for(cursor, start, end);
        marked(marked(body, from, from + open, bits), stop - close, stop, bits)
    } else {
        body
    }
}

proof fn lemma_ticks(source: Seq<u8>, from: int, to: int)
    requires
        0 <= from <= to <= source.len(),
    ensures
        0 <= ticks_ahead(source, from, to) <= to - from,
        0 <= ticks_behind(source, from, to) <= to - from,
    decreases to - from,
{
    if from < to {
        lemma_ticks(source, from + 1, to);
        lemma_ticks(source, from, to - 1);
    }
}

/// Mark an inline code span. It comes whole, contents and backticks together, so its
/// markers are the runs of backticks at either end.
fn mark_code(source: &[u8], cursor: Option<usize>, inherited: u16, start: usize, end: usize, bytes: &mut Vec<u16>)
    ensures
        final(bytes)@ == code_marked(source@, cursor, inherited, start as int, end as int, old(bytes)@),
{
    mark(bytes, start, end, inherited | CODE | UNCHECKED);
    let stop = if end < source.len() { end } else { source.len() };
    let from = if start < stop { start } else { stop };
    let mut open: usize = 0;
    while from + open < stop && source[from + open] == 96u8
        invariant
            from <= stop <= source@.len(),
            from + open <= stop,
            ticks_ahead(source@, from as int, stop as int) == open + ticks_ahead(source@, from + open, stop as int),
        decreases stop - from - open,
    {
        open = open + 1;
    }
    let mut close: usize = 0;
    while stop - close > from && source[stop - close - 1] == 96u8
        invariant
            from <= stop <= source@.len(),
            from + close <= stop,
            ticks_behind(source@, from as int, stop as int) == close + ticks_behind(source@, from as int, stop - close),
        decreases stop - from - close,
    {
        close = close + 1;
    }
    proof {
        lemma_ticks(source@, from as int, stop as int);
    }
    if open < (stop - from) - close {
        let bits = marker_bits(cursor, start, end);
        mark(bytes, from, from + open, bits);
        mark(bytes, stop - close, stop, bits);
    }
}

/// One event's worth of marking prose: the bytes so far and the spans open.
pub open spec fn prose_step(source: Seq<u8>, cursor: Option<usize>, state: (Seq<u16>, Seq<Frame>), piece: Piece) -> (Seq<u16>, Seq<Frame>) {
    let (bytes, stack) = state;
    match piece.event {
        Event::End(_) => if stack.len() == 0 {
            state
        } else {
            let frame = stack.last();
            let rest = stack.drop_last();
            let body = marked(bytes, frame.start as int, frame.end as int, inherited_bits(rest) | frame.bits);
            (delimited(frame, cursor, body), rest)
        },
        _ => {
            let stack = with_child(stack, piece.start, piece.end);
            let above = inherited_bits(stack);
            match piece.event {
                Event::Start(name) => {
                    let (bits, delimiters) = shape_of(element_named(name@));
                    (bytes, stack.push(Frame { start: piece.start, end: piece.end, bits, delimiters, content: None }))
                },
                Event::Image(_) => {
                    let (bits, delimiters) = shape_of(Element::Image);
                    (bytes, stack.push(Frame { start: piece.start, end: piece.end, bits, delimiters, content: None }))
                },
                Event::Code => (code_marked(source, cursor, above, piece.start as int, piece.end as int, bytes), stack),
                Event::TaskListMarker => (marked(bytes, piece.start as int, piece.end as int, above | MARKER), stack),
                _ => (marked(bytes, piece.start as int, piece.end as int, above), stack),
            }
        },
    }
}

/// The marks of prose once `pieces` have been read, starting from nothing marked.
pub open spec fn prose(source: Seq<u8>, cursor: Option<usize>, pieces: Seq<Piece>) -> (Seq<u16>, Seq<Frame>)
    decreases pieces.len(),
{
    if pieces.len() == 0 {
        (Seq::new(source.len(), |i: int| 0u16), Seq::empty())
    } else {
        prose_step(source, cursor, prose(source, cursor, pieces.drop_last()), pieces.last())
    }
}

/// Mark prose by its events. A span closing is that span reported a second time, and is
/// nobody's child; everything else is a child of the span it sits in.
pub fn mark_prose(source: &[u8], cursor: Option<usize>, pieces: &Vec<Piece>, bytes: &mut Vec<u16>)
    requires
        old(bytes)@ == Seq::new(source@.len(), |i: int| 0u16),
    ensures
        final(bytes)@ == prose(source@, cursor, pieces@).0,
{
    let mut stack: Vec<Frame> = Vec::new();
    let mut i: usize = 0;
    while i < pieces.len()
        invariant
            0 <= i <= pieces.len(),
            (bytes@, stack@) == prose(source@, cursor, pieces@.take(i as int)),
        decreases pieces.len() - i,
    {
        proof {
            assert(pieces@.take(i + 1).drop_last() =~= pieces@.take(i as int));
            assert(pieces@.take(i + 1).last() == pieces@[i as int]);
        }
        let piece = &pieces[i];
        match &piece.event {
            Event::End(_) => {
                if let Some(frame) = stack.pop() {
                    let bits = inherited(&stack) | frame.bits;
                    mark(bytes, frame.start, frame.end, bits);
                    mark_delimiters(&frame, cursor, bytes);
                }
            },
            _ => {
                note_child(&mut stack, piece.start, piece.end);
                let above = inherited(&stack);
                match &piece.event {
                    Event::Start(name) => {
                        let (bits, delimiters) = shape(element_of(name));
                        stack.push(Frame { start: piece.start, end: piece.end, bits, delimiters, content: None });
                    },
                    Event::Image(_) => {
                        let (bits, delimiters) = shape(Element::Image);
                        stack.push(Frame { start: piece.start, end: piece.end, bits, delimiters, content: None });
                    },
                    Event::Code => mark_code(source, cursor, above, piece.start, piece.end, bytes),
                    Event::TaskListMarker => mark(bytes, piece.start, piece.end, above | MARKER),
                    _ => mark(bytes, piece.start, piece.end, above),
                }
            },
        }
        i = i + 1;
    }
    proof {
        assert(pieces@.take(pieces@.len() as int) =~= pieces@);
    }
}

/// The lines of `s` from character `i` on, as character ranges without the newline that
/// ends each: the spans a QTextDocument divides itself into. Text ending in a newline ends in
/// an empty line.
pub open spec fn lines_at(s: Seq<char>, i: int) -> Seq<(int, int)>
    decreases s.len() + 1 - i,
{
    if i < 0 || i > s.len() {
        Seq::empty()
    } else {
        proof {
            lemma_line_end(s, i);
        }
        let e = line_end(s, i);
        if e < s.len() {
            seq![(i, e)] + lines_at(s, e + 1)
        } else {
            seq![(i, s.len() as int)]
        }
    }
}

/// Each line of `chars`, without the newline that ends it.
pub fn line_ranges(chars: &Vec<char>) -> (lines: Vec<(usize, usize)>)
    ensures
        crate::parse::ints(lines@) == lines_at(chars@, 0),
        lines@.len() >= 1,
{
    let ghost s = chars@;
    let mut lines: Vec<(usize, usize)> = Vec::new();
    let mut start: usize = 0;
    let mut i: usize = 0;
    while i < chars.len()
        invariant
            s == chars@,
            0 <= start <= i <= s.len(),
            line_end(s, start as int) == line_end(s, i as int),
            lines_at(s, 0) == crate::parse::ints(lines@) + lines_at(s, start as int),
        decreases s.len() - i,
    {
        if chars[i] == '\n' {
            proof {
                lemma_line_end(s, start as int);
                assert(lines_at(s, start as int) == seq![(start as int, i as int)] + lines_at(s, i + 1));
                crate::parse::lemma_ints_push(lines@, (start, i));
                assert(crate::parse::ints(lines@) + lines_at(s, start as int) =~= crate::parse::ints(
                    lines@.push((start, i)),
                ) + lines_at(s, i + 1));
            }
            lines.push((start, i));
            start = i + 1;
        }
        i = i + 1;
    }
    proof {
        lemma_line_end(s, start as int);
        crate::parse::lemma_ints_push(lines@, (start, i));
        assert(crate::parse::ints(lines@) + lines_at(s, start as int) =~= crate::parse::ints(
            lines@.push((start, i)),
        ));
    }
    lines.push((start, i));
    lines
}

/// A line that opens or closes a fenced block: three backticks or tildes once its leading
/// whitespace is taken off.
pub open spec fn fence_line(s: Seq<char>, a: int, b: int) -> bool {
    let f = first_black(s, a, b);
    &&& b - f >= 3
    &&& {
        ||| s[f] == '`' && s[f + 1] == '`' && s[f + 2] == '`'
        ||| s[f] == '~' && s[f + 1] == '~' && s[f + 2] == '~'
    }
}

/// The line `a..b` holds the cursor: it is within it, or at its end.
pub open spec fn holds(a: int, b: int, at: usize) -> bool {
    (a <= at && at < b) || at == b
}

/// `bytes` with the fences of a fenced block marked. The fences are its first and last
/// lines, if they are fences at all; they open up as soon as the cursor reaches either end
/// of the block.
pub open spec fn fenced(s: Seq<char>, cursor: Option<usize>, bytes: Seq<u16>) -> Seq<u16> {
    let lines = lines_at(s, 0);
    let first = lines[0];
    let last = lines.last();
    let f = (utf8_len(s.take(first.0)) as int, utf8_len(s.take(first.1)) as int);
    let l = (utf8_len(s.take(last.0)) as int, utf8_len(s.take(last.1)) as int);
    let open = match cursor {
        Some(at) => holds(f.0, f.1, at) || holds(l.0, l.1, at),
        None => false,
    };
    let bits = if open { MARKER } else { HIDDEN };
    let once = if fence_line(s, first.0, first.1) { marked(bytes, f.0, f.1, bits) } else { bytes };
    if fence_line(s, last.0, last.1) { marked(once, l.0, l.1, bits) } else { once }
}

proof fn lemma_lines_in_bounds(s: Seq<char>, i: int)
    requires
        0 <= i <= s.len(),
    ensures
        forall|j: int| 0 <= j < lines_at(s, i).len() ==> 0 <= #[trigger] lines_at(s, i)[j].0 <= lines_at(s, i)[j].1 <= s.len(),
        lines_at(s, i).len() >= 1,
    decreases s.len() + 1 - i,
{
    lemma_line_end(s, i);
    let e = line_end(s, i);
    if e < s.len() {
        lemma_lines_in_bounds(s, e + 1);
        let rest = lines_at(s, e + 1);
        assert forall|j: int| 0 <= j < lines_at(s, i).len() implies 0 <= #[trigger] lines_at(s, i)[j].0 <= lines_at(s, i)[j].1 <= s.len() by {
            if j > 0 {
                assert(lines_at(s, i)[j] == rest[j - 1]);
            }
        }
    }
}

/// Whether the line `a..b` of `chars` is a fence.
fn is_fence(chars: &Vec<char>, a: usize, b: usize) -> (fence: bool)
    requires
        a <= b <= chars.len(),
    ensures
        fence == fence_line(chars@, a as int, b as int),
{
    let f = skip_whitespace(chars, a, b);
    proof {
        crate::parse::lemma_first_black(chars@, a as int, b as int);
    }
    if b - f < 3 {
        return false;
    }
    (chars[f] == '`' && chars[f + 1] == '`' && chars[f + 2] == '`') || (chars[f] == '~' && chars[f + 1] == '~'
        && chars[f + 2] == '~')
}

/// Inside a fenced block the fences are the only markup there is, and they open up as soon
/// as the cursor reaches either end of the block.
pub fn mark_fences(chars: &Vec<char>, starts: &Vec<usize>, cursor: Option<usize>, bytes: &mut Vec<u16>)
    requires
        byte_table(chars@, starts@),
    ensures
        final(bytes)@ == fenced(chars@, cursor, old(bytes)@),
{
    let ghost s = chars@;
    let lines = line_ranges(chars);
    proof {
        lemma_lines_in_bounds(s, 0);
        assert(crate::parse::ints(lines@)[0] == (lines@[0].0 as int, lines@[0].1 as int));
        assert(crate::parse::ints(lines@)[lines@.len() - 1] == (lines@[lines@.len() - 1].0 as int, lines@[lines@.len() - 1].1 as int));
    }
    let (first_from, first_to) = lines[0];
    let (last_from, last_to) = lines[lines.len() - 1];
    let f = (starts[first_from], starts[first_to]);
    let l = (starts[last_from], starts[last_to]);
    let open = match cursor {
        Some(at) => ((f.0 <= at && at < f.1) || at == f.1) || ((l.0 <= at && at < l.1) || at == l.1),
        None => false,
    };
    let bits = if open { MARKER } else { HIDDEN };
    if is_fence(chars, first_from, first_to) {
        mark(bytes, f.0, f.1, bits);
    }
    if is_fence(chars, last_from, last_to) {
        mark(bytes, l.0, l.1, bits);
    }
}

/// The marks spread out from bytes to UTF-16 units: each character's first byte gives its
/// one unit, or both of its two.
pub open spec fn spread(s: Seq<char>, bytes: Seq<u16>) -> Seq<u16>
    decreases s.len(),
{
    if s.len() == 0 {
        Seq::empty()
    } else {
        let b = bytes[utf8_len(s.drop_last()) as int];
        spread(s.drop_last(), bytes) + if utf16_width(s.last()) == 1 {
            seq![b]
        } else {
            seq![b, b]
        }
    }
}

proof fn lemma_spread_len(s: Seq<char>, bytes: Seq<u16>)
    ensures
        spread(s, bytes).len() == utf16_len(s),
    decreases s.len(),
{
    if s.len() > 0 {
        lemma_spread_len(s.drop_last(), bytes);
    }
}

/// The marks counted out per UTF-16 unit, which is how a QString counts.
fn spread_out(chars: &Vec<char>, starts: &Vec<usize>, bytes: &Vec<u16>) -> (mask: Vec<u16>)
    requires
        byte_table(chars@, starts@),
        bytes@.len() == utf8_len(chars@),
    ensures
        mask@ == spread(chars@, bytes@),
{
    let ghost s = chars@;
    let mut mask: Vec<u16> = Vec::new();
    let mut i: usize = 0;
    while i < chars.len()
        invariant
            s == chars@,
            byte_table(s, starts@),
            bytes@.len() == utf8_len(s),
            0 <= i <= s.len(),
            mask@ == spread(s.take(i as int), bytes@),
        decreases s.len() - i,
    {
        proof {
            lemma_take_push(s, i as int);
            crate::text::lemma_prefix_len(s, i + 1, s.len() as int);
            assert(s.take(s.len() as int) =~= s);
        }
        let b = bytes[starts[i]];
        if len_utf16(chars[i]) == 1 {
            mask.push(b);
        } else {
            mask.push(b);
            mask.push(b);
        }
        assert(mask@ =~= spread(s.take(i + 1), bytes@));
        i = i + 1;
    }
    assert(s.take(s.len() as int) =~= s);
    mask
}

/// Where the cursor is, in bytes, if the block holds it.
pub open spec fn cursor_byte(s: Seq<char>, cursor: i32) -> Option<usize> {
    if cursor >= 0 {
        Some(unit_to_byte(s, cursor as int) as usize)
    } else {
        None
    }
}

/// The marks of a block, given the parser's events for it (which a fenced block does not
/// need): one set of bits per UTF-16 unit.
pub open spec fn style_of(s: Seq<char>, cursor: i32, code: bool, pieces: Seq<Piece>) -> Seq<u16> {
    let source = vstd::utf8::encode_utf8(s);
    let zero = Seq::new(source.len(), |i: int| 0u16);
    let bytes = if code {
        fenced(s, cursor_byte(s, cursor), zero)
    } else {
        prose(source, cursor_byte(s, cursor), pieces).0
    };
    spread(s, bytes)
}

/// The marks of a block whose events are known.
pub fn style_with(text: &str, cursor: i32, code: bool, pieces: &Vec<Piece>) -> (mask: Vec<u16>)
    ensures
        mask@ == style_of(text@, cursor, code, pieces@),
        mask@.len() == utf16_len(text@),
{
    let chars = chars_of(text);
    let starts = byte_starts(text, &chars);
    let source = text.as_bytes();
    proof {
        lemma_str_len(text);
    }
    let mut bytes: Vec<u16> = Vec::new();
    while bytes.len() < source.len()
        invariant
            bytes.len() <= source@.len(),
            forall|j: int| 0 <= j < bytes.len() ==> bytes@[j] == 0u16,
        decreases source@.len() - bytes.len(),
    {
        bytes.push(0);
    }
    assert(bytes@ =~= Seq::new(source@.len(), |i: int| 0u16));
    let at = if cursor >= 0 {
        Some(byte_offset(text, cursor))
    } else {
        None
    };
    if code {
        mark_fences(&chars, &starts, at, &mut bytes);
    } else {
        mark_prose(source, at, pieces, &mut bytes);
        proof {
            lemma_prose_len(source@, at, pieces@);
        }
    }
    proof {
        lemma_spread_len(text@, bytes@);
    }
    spread_out(&chars, &starts, &bytes)
}

proof fn lemma_prose_len(source: Seq<u8>, cursor: Option<usize>, pieces: Seq<Piece>)
    ensures
        prose(source, cursor, pieces).0.len() == source.len(),
    decreases pieces.len(),
{
    if pieces.len() > 0 {
        lemma_prose_len(source, cursor, pieces.drop_last());
    }
}

/// One set of style bits per UTF-16 unit of `text`, which is how a QString counts.
/// `cursor` is where the cursor stands in those same units, or -1 for a block that does not
/// hold it; `code` says this is a fenced block, where the only markup there is are the
/// fences.
pub fn style_mask(text: &str, cursor: i32, code: bool) -> (mask: Vec<u16>)
    ensures
        code ==> mask@ == style_of(text@, cursor, code, Seq::empty()),
        !code ==> mask@ == style_of(text@, cursor, code, parsed(text@)),
        mask@.len() == utf16_len(text@),
{
    if code {
        style_with(text, cursor, code, &Vec::new())
    } else {
        let pieces = parse_pieces(text);
        style_with(text, cursor, code, &pieces)
    }
}


/// Whether a unit's bits mark it a marker.
pub open spec fn is_marker(bits: u16) -> bool {
    bits & MARKER == MARKER
}

proof fn lemma_or_keeps_marker(x: u16, y: u16)
    by (bit_vector)
    ensures
        x & 32u16 == 32u16 ==> (x | y) & 32u16 == 32u16,
        (x | 32u16) & 32u16 == 32u16,
{
}

/// Adding bits takes none away.
proof fn lemma_marked_keeps(bytes: Seq<u16>, start: int, end: int, bits: u16, b: int)
    requires
        0 <= b < bytes.len(),
        is_marker(bytes[b]),
    ensures
        marked(bytes, start, end, bits).len() == bytes.len(),
        is_marker(marked(bytes, start, end, bits)[b]),
{
    lemma_or_keeps_marker(bytes[b], bits);
}

/// Reading one more event takes no marker away.
proof fn lemma_step_keeps(source: Seq<u8>, cursor: Option<usize>, state: (Seq<u16>, Seq<Frame>), piece: Piece, b: int)
    requires
        0 <= b < state.0.len(),
        is_marker(state.0[b]),
    ensures
        prose_step(source, cursor, state, piece).0.len() == state.0.len(),
        is_marker(prose_step(source, cursor, state, piece).0[b]),
{
    let (bytes, stack) = state;
    match piece.event {
        Event::End(_) => if stack.len() > 0 {
            let frame = stack.last();
            let rest = stack.drop_last();
            let body = marked(bytes, frame.start as int, frame.end as int, inherited_bits(rest) | frame.bits);
            lemma_marked_keeps(bytes, frame.start as int, frame.end as int, inherited_bits(rest) | frame.bits, b);
            match frame.content {
                None => {},
                Some((a, c)) => match frame.delimiters {
                    Delimiters::Plain => {},
                    Delimiters::Ahead => lemma_marked_keeps(body, frame.start as int, a as int, MARKER, b),
                    Delimiters::Around => {
                        let bits = marker_for(cursor, frame.start as int, frame.end as int);
                        lemma_marked_keeps(body, frame.start as int, a as int, bits, b);
                        lemma_marked_keeps(marked(body, frame.start as int, a as int, bits), c as int, frame.end as int, bits, b);
                    },
                },
            }
        },
        _ => {
            let stack = with_child(stack, piece.start, piece.end);
            let above = inherited_bits(stack);
            match piece.event {
                Event::Code => {
                    let start = piece.start as int;
                    let end = piece.end as int;
                    let body = marked(bytes, start, end, above | CODE | UNCHECKED);
                    lemma_marked_keeps(bytes, start, end, above | CODE | UNCHECKED, b);
                    let (from, stop) = clipped(source, start, end);
                    let open = ticks_ahead(source, from, stop);
                    let close = ticks_behind(source, from, stop);
                    let bits = marker_for(cursor, start, end);
                    lemma_marked_keeps(body, from, from + open, bits, b);
                    lemma_marked_keeps(marked(body, from, from + open, bits), stop - close, stop, bits, b);
                },
                Event::TaskListMarker => lemma_marked_keeps(bytes, piece.start as int, piece.end as int, above | MARKER, b),
                Event::Start(_) => {},
                Event::Image(_) => {},
                _ => lemma_marked_keeps(bytes, piece.start as int, piece.end as int, above, b),
            }
        },
    }
}

/// Nor does reading any number of them.
proof fn lemma_prose_keeps(source: Seq<u8>, cursor: Option<usize>, pieces: Seq<Piece>, j: int, b: int)
    requires
        0 <= j <= pieces.len(),
        0 <= b < source.len(),
        is_marker(prose(source, cursor, pieces.take(j)).0[b]),
    ensures
        is_marker(prose(source, cursor, pieces).0[b]),
    decreases pieces.len() - j,
{
    if j == pieces.len() {
        assert(pieces.take(j) =~= pieces);
    } else {
        let t = pieces.take(j + 1);
        assert(t.drop_last() =~= pieces.take(j));
        assert(t.last() == pieces[j]);
        lemma_prose_len(source, cursor, pieces.take(j));
        lemma_step_keeps(source, cursor, prose(source, cursor, pieces.take(j)), pieces[j], b);
        lemma_prose_keeps(source, cursor, pieces, j + 1, b);
    }
}

/// Each character's first unit carries the bits of its first byte.
proof fn lemma_spread_at(s: Seq<char>, bytes: Seq<u16>, k: int)
    requires
        0 <= k < s.len(),
    ensures
        utf16_len(s.take(k)) < spread(s, bytes).len(),
        spread(s, bytes)[utf16_len(s.take(k)) as int] == bytes[utf8_len(s.take(k)) as int],
    decreases s.len(),
{
    let front = s.drop_last();
    lemma_spread_len(front, bytes);
    lemma_spread_len(s, bytes);
    if k < s.len() - 1 {
        assert(front.take(k) =~= s.take(k));
        lemma_spread_at(front, bytes, k);
    } else {
        assert(s.take(k) =~= front);
    }
    crate::text::lemma_prefix_len(s, k, s.len() as int);
    crate::text::lemma_take_push(s, k);
    assert(s.take(s.len() as int) =~= s);
}

/// A heading's hashes are markers: in a heading whose contents are one run of text, every
/// unit from where the heading starts up to where its text starts is drawn as a marker,
/// legible and muted, wherever the cursor is and whatever follows the heading.
pub proof fn law_heading_hashes_are_markers(s: Seq<char>, cursor: i32, pieces: Seq<Piece>, k: int)
    requires
        pieces.len() >= 3,
        match pieces[0].event {
            Event::Start(name) => "Heading("@.is_prefix_of(name@),
            _ => false,
        },
        match pieces[1].event {
            Event::Start(_) | Event::End(_) | Event::Image(_) => false,
            _ => true,
        },
        pieces[2].event is End,
        0 <= k < s.len(),
        pieces[0].start <= utf8_len(s.take(k)) < pieces[1].start,
    ensures
        is_marker(style_of(s, cursor, false, pieces)[utf16_len(s.take(k)) as int]),
{
    let source = vstd::utf8::encode_utf8(s);
    let at = cursor_byte(s, cursor);
    let b = utf8_len(s.take(k)) as int;
    crate::text::lemma_utf8_len_encode(s);
    crate::text::lemma_prefix_len(s, k, s.len() as int);
    crate::text::lemma_take_push(s, k);
    assert(s.take(s.len() as int) =~= s);
    assert(b < source.len());
    reveal_strlit("Heading(");
    reveal_strlit("Paragraph");
    if let Event::Start(name) = pieces[0].event {
        assert(name@.subrange(0, 8) == "Heading("@);
        assert(name@[0] == name@.subrange(0, 8)[0]);
        assert(name@ != "Paragraph"@) by {
            assert("Paragraph"@[0] == 'P');
        }
        assert(element_named(name@) == Element::Heading);
    }
    let p3 = pieces.take(3);
    assert(p3.drop_last().drop_last().drop_last() =~= Seq::<Piece>::empty());
    assert(p3.drop_last().drop_last() =~= seq![pieces[0]]);
    assert(p3.drop_last() =~= seq![pieces[0], pieces[1]]);
    let zero = Seq::new(source.len(), |i: int| 0u16);
    let s1 = prose(source, at, seq![pieces[0]]);
    assert(seq![pieces[0]].drop_last() =~= Seq::<Piece>::empty());
    assert(prose(source, at, Seq::<Piece>::empty()).1 == Seq::<Frame>::empty());
    assert(seq![pieces[0]].last() == pieces[0]);
    assert(s1 == prose_step(source, at, prose(source, at, Seq::<Piece>::empty()), pieces[0]));
    assert(s1.1.len() == 1);
    assert(s1.1[0].delimiters == Delimiters::Ahead);
    let s2 = prose(source, at, seq![pieces[0], pieces[1]]);
    assert(seq![pieces[0], pieces[1]].drop_last() =~= seq![pieces[0]]);
    lemma_prose_len(source, at, seq![pieces[0], pieces[1]]);
    assert(s2.1.len() == 1);
    assert(s2.1[0].content == Some((pieces[1].start, pieces[1].end)));
    assert(s2.1[0].start == pieces[0].start);
    assert(s2.1[0].delimiters == Delimiters::Ahead);
    let frame = s2.1.last();
    let body = marked(s2.0, frame.start as int, frame.end as int, inherited_bits(s2.1.drop_last()) | frame.bits);
    let s3 = prose(source, at, p3);
    assert(s3.0 == marked(body, frame.start as int, pieces[1].start as int, MARKER));
    lemma_or_keeps_marker(body[b], MARKER);
    assert(is_marker(s3.0[b]));
    lemma_prose_keeps(source, at, pieces, 3, b);
    lemma_prose_len(source, at, pieces);
    lemma_spread_at(s, prose(source, at, pieces).0, k);
}

} // verus!
