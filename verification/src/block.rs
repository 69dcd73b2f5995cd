//! The few facts about a single block the view needs: what kind of block it is, whether it
//! is nothing but an image, and the Markdown to render for it.

use vstd::prelude::*;
use vstd::string::StrSliceExecFns;
use vstd::string::StringExecFns;
use crate::markdown::{element_named, element_of, parse_pieces, parsed, Element, Event, Piece};
use crate::text::{all_white, chars_of, only_whitespace, white};

verus! {

/// Reading a block's events for a lone image: either something outside the image has
/// already ruled it out, or the image's destination so far and whether the events are
/// inside the image.
pub enum ImageScan {
    Ruled,
    Reading(Option<Seq<char>>, bool),
}

/// The lone-image reading of `pieces`.
pub open spec fn image_scan(pieces: Seq<Piece>) -> ImageScan
    decreases pieces.len(),
{
    if pieces.len() == 0 {
        ImageScan::Reading(None, false)
    } else {
        match image_scan(pieces.drop_last()) {
            ImageScan::Ruled => ImageScan::Ruled,
            ImageScan::Reading(path, inside) => match pieces.last().event {
                Event::Start(name) => if element_named(name@) == Element::Paragraph {
                    ImageScan::Reading(path, inside)
                } else if inside {
                    ImageScan::Reading(path, inside)
                } else {
                    ImageScan::Ruled
                },
                Event::End(name) => if element_named(name@) == Element::Paragraph {
                    ImageScan::Reading(path, inside)
                } else if element_named(name@) == Element::Image {
                    ImageScan::Reading(path, false)
                } else if inside {
                    ImageScan::Reading(path, inside)
                } else {
                    ImageScan::Ruled
                },
                Event::Image(dest) => if path is Some {
                    ImageScan::Ruled
                } else {
                    ImageScan::Reading(Some(dest@), true)
                },
                Event::Text(text) => if inside || all_white(text@) {
                    ImageScan::Reading(path, inside)
                } else {
                    ImageScan::Ruled
                },
                _ => if inside {
                    ImageScan::Reading(path, inside)
                } else {
                    ImageScan::Ruled
                },
            },
        }
    }
}

/// The destination of the one image that is all a block's events hold, besides the
/// paragraph around it and whitespace.
pub open spec fn lone_image_in(pieces: Seq<Piece>) -> Option<Seq<char>> {
    match image_scan(pieces) {
        ImageScan::Ruled => None,
        ImageScan::Reading(path, _) => path,
    }
}

/// Once something has ruled the image out, nothing after it brings it back.
proof fn lemma_ruled_stays(pieces: Seq<Piece>, j: int)
    requires
        0 <= j <= pieces.len(),
        image_scan(pieces.take(j)) is Ruled,
    ensures
        image_scan(pieces) is Ruled,
    decreases pieces.len() - j,
{
    if j < pieces.len() {
        assert(pieces.take(j + 1).drop_last() =~= pieces.take(j));
        lemma_ruled_stays(pieces, j + 1);
    } else {
        assert(pieces.take(j) =~= pieces);
    }
}

/// Whether every character of `text` is whitespace.
fn blank(text: &String) -> (b: bool)
    ensures
        b == all_white(text@),
{
    let chars = chars_of(text.as_str());
    assert(chars@.subrange(0, chars@.len() as int) =~= chars@);
    only_whitespace(&chars, 0, chars.len())
}

/// The destination of the image a block's events hold, if they hold one image and nothing
/// else but the paragraph around it and whitespace.
pub fn lone_image_of(pieces: &Vec<Piece>) -> (path: Option<String>)
    ensures
        match lone_image_in(pieces@) {
            Some(p) => path matches Some(q) && q@ == p,
            None => path is None,
        },
{
    let mut path: Option<String> = None;
    let mut inside = false;
    let mut i: usize = 0;
    while i < pieces.len()
        invariant
            0 <= i <= pieces.len(),
            image_scan(pieces@.take(i as int)) == ImageScan::Reading(
                match path {
                    Some(p) => Some(p@),
                    None => None::<Seq<char>>,
                },
                inside,
            ),
        decreases pieces.len() - i,
    {
        proof {
            assert(pieces@.take(i + 1).drop_last() =~= pieces@.take(i as int));
            assert(pieces@.take(i + 1).last() == pieces@[i as int]);
        }
        match &pieces[i].event {
            Event::Start(name) => {
                if element_of(name) != Element::Paragraph && !inside {
                    proof {
                        lemma_ruled_stays(pieces@, i + 1);
                    }
                    return None;
                }
            },
            Event::End(name) => {
                let element = element_of(name);
                if element == Element::Image {
                    inside = false;
                } else if element != Element::Paragraph && !inside {
                    proof {
                        lemma_ruled_stays(pieces@, i + 1);
                    }
                    return None;
                }
            },
            Event::Image(dest) => {
                if path.is_some() {
                    proof {
                        lemma_ruled_stays(pieces@, i + 1);
                    }
                    return None;
                }
                path = Some(dest.clone());
                inside = true;
            },
            Event::Text(text) => {
                if !inside && !blank(text) {
                    proof {
                        lemma_ruled_stays(pieces@, i + 1);
                    }
                    return None;
                }
            },
            _ => {
                if !inside {
                    proof {
                        lemma_ruled_stays(pieces@, i + 1);
                    }
                    return None;
                }
            },
        }
        i = i + 1;
    }
    proof {
        assert(pieces@.take(pieces@.len() as int) =~= pieces@);
    }
    path
}

/// The image path of a block that is a lone `![alt](path)` paragraph, if any.
pub fn lone_image(block: &str) -> (path: Option<String>)
    ensures
        match lone_image_in(parsed(block@)) {
            Some(p) => path matches Some(q) && q@ == p,
            None => path is None,
        },
{
    let pieces = parse_pieces(block);
    lone_image_of(&pieces)
}

/// The kinds of block the view tells apart.
#[derive(Clone, Copy, Debug, PartialEq, Eq, Structural)]
pub enum Kind {
    Image,
    Heading,
    Code,
    Quote,
    Table,
    List,
    Rule,
    Paragraph,
}

/// The name the view knows a kind of block by.
pub open spec fn kind_name(kind: Kind) -> &'static str {
    match kind {
        Kind::Image => "image",
        Kind::Heading => "heading",
        Kind::Code => "code",
        Kind::Quote => "quote",
        Kind::Table => "table",
        Kind::List => "list",
        Kind::Rule => "rule",
        Kind::Paragraph => "paragraph",
    }
}

/// What kind of block the events make: an image if they hold nothing but one, or else what
/// the first event opens.
pub open spec fn kind_in(pieces: Seq<Piece>) -> Kind {
    if lone_image_in(pieces) is Some {
        Kind::Image
    } else if pieces.len() == 0 {
        Kind::Paragraph
    } else {
        match pieces[0].event {
            Event::Start(name) => match element_named(name@) {
                Element::Heading => Kind::Heading,
                Element::CodeBlock => Kind::Code,
                Element::BlockQuote => Kind::Quote,
                Element::Table => Kind::Table,
                Element::List => Kind::List,
                _ => Kind::Paragraph,
            },
            Event::Rule => Kind::Rule,
            _ => Kind::Paragraph,
        }
    }
}

/// What kind of block the events make.
pub fn kind_of(pieces: &Vec<Piece>) -> (kind: Kind)
    ensures
        kind == kind_in(pieces@),
{
    if lone_image_of(pieces).is_some() {
        return Kind::Image;
    }
    if pieces.len() == 0 {
        return Kind::Paragraph;
    }
    match &pieces[0].event {
        Event::Start(name) => match element_of(name) {
            Element::Heading => Kind::Heading,
            Element::CodeBlock => Kind::Code,
            Element::BlockQuote => Kind::Quote,
            Element::Table => Kind::Table,
            Element::List => Kind::List,
            _ => Kind::Paragraph,
        },
        Event::Rule => Kind::Rule,
        _ => Kind::Paragraph,
    }
}

/// The name the view knows a kind of block by.
pub fn name_of(kind: Kind) -> (name: &'static str)
    ensures
        name == kind_name(kind),
{
    match kind {
        Kind::Image => "image",
        Kind::Heading => "heading",
        Kind::Code => "code",
        Kind::Quote => "quote",
        Kind::Table => "table",
        Kind::List => "list",
        Kind::Rule => "rule",
        Kind::Paragraph => "paragraph",
    }
}

/// What kind of block this is, as the view names them.
pub fn kind(block: &str) -> (kind: &'static str)
    ensures
        kind == kind_name(kind_in(parsed(block@))),
{
    let pieces = parse_pieces(block);
    name_of(kind_of(&pieces))
}

/// Where the line starting at `i` ends: at the next `'\n'`, or the end of `s`.
pub open spec fn line_end(s: Seq<char>, i: int) -> int
    decreases s.len() - i,
{
    if i >= s.len() {
        s.len() as int
    } else if s[i] == '\n' {
        i
    } else {
        line_end(s, i + 1)
    }
}

pub proof fn lemma_line_end(s: Seq<char>, i: int)
    requires
        0 <= i,
    ensures
        i <= line_end(s, i) || i >= s.len(),
        line_end(s, i) <= s.len(),
        line_end(s, i) < s.len() ==> s[line_end(s, i)] == '\n',
    decreases s.len() - i,
{
    if i < s.len() && s[i] != '\n' {
        lemma_line_end(s, i + 1);
    }
}

/// A line's text without the `'\r'` of a `"\r\n"` ending.
pub open spec fn without_cr(line: Seq<char>) -> Seq<char> {
    if line.len() > 0 && line.last() == '\r' {
        line.drop_last()
    } else {
        line
    }
}

/// The lines of `s` from `i` on, as `str::lines` yields them.
pub open spec fn lines_from(s: Seq<char>, i: int) -> Seq<Seq<char>>
    decreases s.len() - i,
{
    if i < 0 || i >= s.len() {
        Seq::empty()
    } else {
        proof {
            lemma_line_end(s, i);
        }
        let e = line_end(s, i);
        if e < s.len() {
            seq![without_cr(s.subrange(i, e))] + lines_from(s, e + 1)
        } else {
            seq![s.subrange(i, s.len() as int)]
        }
    }
}

/// The lines of `s`: split at each `'\n'`, a `'\r'` just before one taken off with it, and no
/// empty line after a final newline.
pub open spec fn lines_of(s: Seq<char>) -> Seq<Seq<char>> {
    lines_from(s, 0)
}

/// A line that already breaks: it ends in two spaces or a backslash.
pub open spec fn breaks(line: Seq<char>) -> bool {
    ||| line.len() >= 2 && line[line.len() - 1] == ' ' && line[line.len() - 2] == ' '
    ||| line.len() >= 1 && line[line.len() - 1] == '\\'
}

/// What goes between two lines: a newline, made a hard break with two spaces unless the
/// line already breaks or either line is blank (and so ends its paragraph anyway).
pub open spec fn joint(line: Seq<char>, next: Seq<char>) -> Seq<char> {
    if all_white(line) || all_white(next) || breaks(line) {
        seq!['\n']
    } else {
        seq![' ', ' ', '\n']
    }
}

/// The lines put back together with hard breaks where a writer's newline needs one.
pub open spec fn hardened(lines: Seq<Seq<char>>) -> Seq<char>
    decreases lines.len(),
{
    if lines.len() == 0 {
        Seq::empty()
    } else if lines.len() == 1 {
        lines[0]
    } else {
        hardened(lines.drop_last()) + joint(lines[lines.len() - 2], lines.last()) + lines.last()
    }
}

/// The Markdown to render for a block of a given kind: paragraphs, quotes and lists have
/// their line breaks made hard, since the view would fold them into spaces.
pub open spec fn rendered_text(block: Seq<char>, kind: Kind) -> Seq<char> {
    if kind == Kind::Paragraph || kind == Kind::Quote || kind == Kind::List {
        hardened(lines_of(block))
    } else {
        block
    }
}

/// The lines of `chars`, as character ranges.
fn line_spans(chars: &Vec<char>) -> (lines: Vec<(usize, usize)>)
    ensures
        lines@.len() == lines_of(chars@).len(),
        forall|j: int| 0 <= j < lines@.len() ==> lines@[j].0 <= #[trigger] lines@[j].1 <= chars.len()
            && chars@.subrange(lines@[j].0 as int, lines@[j].1 as int) == lines_of(chars@)[j],
{
    let ghost s = chars@;
    let mut lines: Vec<(usize, usize)> = Vec::new();
    let ghost mut done: Seq<Seq<char>> = Seq::empty();
    let mut i: usize = 0;
    while i < chars.len()
        invariant
            s == chars@,
            0 <= i <= s.len(),
            lines_of(s) == done + lines_from(s, i as int),
            lines@.len() == done.len(),
            forall|j: int| 0 <= j < lines@.len() ==> lines@[j].0 <= #[trigger] lines@[j].1 <= s.len()
                && s.subrange(lines@[j].0 as int, lines@[j].1 as int) == done[j],
        decreases s.len() - i,
    {
        let mut e = i;
        while e < chars.len() && chars[e] != '\n'
            invariant
                s == chars@,
                i <= e <= s.len(),
                line_end(s, e as int) == line_end(s, i as int),
            decreases s.len() - e,
        {
            e = e + 1;
        }
        if e < chars.len() {
            let stop = if e > i && chars[e - 1] == '\r' { e - 1 } else { e };
            proof {
                assert(s.subrange(i as int, stop as int) =~= without_cr(s.subrange(i as int, e as int)));
                assert(lines_from(s, i as int) == seq![without_cr(s.subrange(i as int, e as int))]
                    + lines_from(s, e + 1));
                assert(done + lines_from(s, i as int) =~= done.push(without_cr(s.subrange(i as int, e as int)))
                    + lines_from(s, e + 1));
                done = done.push(without_cr(s.subrange(i as int, e as int)));
            }
            lines.push((i, stop));
            i = e + 1;
        } else {
            proof {
                assert(lines_from(s, e + 1) =~= Seq::<Seq<char>>::empty());
                assert(done + lines_from(s, i as int) =~= done.push(s.subrange(i as int, s.len() as int)));
                done = done.push(s.subrange(i as int, s.len() as int));
            }
            lines.push((i, e));
            i = e;
        }
    }
    proof {
        assert(done + lines_from(s, i as int) =~= done);
    }
    lines
}

/// Whether a line of `chars` already breaks.
fn ends_in_break(chars: &Vec<char>, from: usize, to: usize) -> (b: bool)
    requires
        from <= to <= chars.len(),
    ensures
        b == breaks(chars@.subrange(from as int, to as int)),
{
    let n = to - from;
    (n >= 2 && chars[to - 1] == ' ' && chars[to - 2] == ' ') || (n >= 1 && chars[to - 1] == '\\')
}

/// The Markdown to render for a block whose kind is known.
pub fn rendered_as(block: &str, kind: Kind) -> (out: String)
    ensures
        out@ == rendered_text(block@, kind),
{
    broadcast use vstd::string::group_string_axioms;

    if !(kind == Kind::Paragraph || kind == Kind::Quote || kind == Kind::List) {
        return block.to_string();
    }
    let chars = chars_of(block);
    let lines = line_spans(&chars);
    let ghost all = lines_of(block@);
    let mut out = String::new();
    let mut j: usize = 0;
    while j < lines.len()
        invariant
            chars@ == block@,
            all == lines_of(block@),
            lines@.len() == all.len(),
            forall|k: int| 0 <= k < lines@.len() ==> lines@[k].0 <= #[trigger] lines@[k].1 <= chars.len()
                && chars@.subrange(lines@[k].0 as int, lines@[k].1 as int) == all[k],
            0 <= j <= lines.len(),
            out@ == hardened(all.take(j as int)),
        decreases lines.len() - j,
    {
        let (from, to) = lines[j];
        proof {
            assert(lines@[j as int].0 <= lines@[j as int].1 <= chars.len());
            let t = all.take(j + 1);
            assert(t.drop_last() =~= all.take(j as int));
            assert(t.last() == all[j as int]);
            if j > 0 {
                assert(t[t.len() - 2] == all[j - 1]);
                reveal_strlit("\n");
                reveal_strlit("  \n");
            } else {
                assert(all.take(j as int).len() == 0);
            }
        }
        if j > 0 {
            let (pfrom, pto) = lines[j - 1];
            proof {
                assert(lines@[j - 1].0 <= lines@[j - 1].1 <= chars.len());
                assert(chars@.subrange(pfrom as int, pto as int) == all[j - 1]);
            }
            let plain = only_whitespace(&chars, pfrom, pto) || only_whitespace(&chars, from, to)
                || ends_in_break(&chars, pfrom, pto);
            if plain {
                out.append("\n");
            } else {
                out.append("  \n");
            }
        }
        out.append(block.substring_char(from, to));
        j = j + 1;
    }
    proof {
        assert(all.take(all.len() as int) =~= all);
    }
    out
}

/// The Markdown to render for a block. The view folds the newlines a writer typed into
/// spaces, so in the blocks where a newline is a line break, they are made hard ones.
pub fn rendered(block: &str) -> (out: String)
    ensures
        out@ == rendered_text(block@, kind_in(parsed(block@))),
{
    let pieces = parse_pieces(block);
    let kind = kind_of(&pieces);
    rendered_as(block, kind)
}


/// `line` holds no `c`.
pub open spec fn lacks(line: Seq<char>, c: char) -> bool {
    forall|k: int| 0 <= k < line.len() ==> line[k] != c
}

/// Line `i` of `lines` as it stands in the rendered text: with the two spaces of a hard break
/// where one went after it.
pub open spec fn hard_line(lines: Seq<Seq<char>>, i: int) -> Seq<char> {
    if i + 1 < lines.len() && !(all_white(lines[i]) || all_white(lines[i + 1]) || breaks(lines[i])) {
        lines[i] + seq![' ', ' ']
    } else {
        lines[i]
    }
}

/// The lines of the rendered text.
pub open spec fn hard_lines(lines: Seq<Seq<char>>) -> Seq<Seq<char>> {
    Seq::new(lines.len(), |i: int| hard_line(lines, i))
}

/// A line ends at the first `'\n'` from where it starts.
proof fn lemma_line_end_at(s: Seq<char>, i: int, m: int)
    requires
        0 <= i <= m <= s.len(),
        forall|k: int| i <= k < m ==> s[k] != '\n',
        m == s.len() || s[m] == '\n',
    ensures
        line_end(s, i) == m,
    decreases m - i,
{
    if i < m {
        lemma_line_end_at(s, i + 1, m);
    }
}

/// No `'\n'` comes before a line's end.
proof fn lemma_line_end_clear(s: Seq<char>, i: int)
    requires
        0 <= i,
    ensures
        forall|k: int| i <= k < line_end(s, i) ==> s[k] != '\n',
    decreases s.len() - i,
{
    if i < s.len() && s[i] != '\n' {
        lemma_line_end_clear(s, i + 1);
    }
}

/// Where a line ends does not depend on what comes before it.
proof fn lemma_line_end_shift(p: Seq<char>, q: Seq<char>, j: int)
    requires
        0 <= j,
    ensures
        line_end(p + q, p.len() + j) == p.len() + line_end(q, j),
    decreases q.len() - j,
{
    if j < q.len() {
        assert((p + q)[p.len() + j] == q[j]);
        if q[j] != '\n' {
            lemma_line_end_shift(p, q, j + 1);
        }
    }
}

/// Nor do the lines.
proof fn lemma_lines_shift(p: Seq<char>, q: Seq<char>, j: int)
    requires
        0 <= j,
    ensures
        lines_from(p + q, p.len() + j) == lines_from(q, j),
    decreases q.len() - j,
{
    if j < q.len() {
        lemma_line_end_shift(p, q, j);
        lemma_line_end(q, j);
        let e = line_end(q, j);
        if e < q.len() {
            lemma_lines_shift(p, q, e + 1);
            assert((p + q).subrange(p.len() + j, p.len() + e) =~= q.subrange(j, e));
        } else {
            assert((p + q).subrange(p.len() + j, (p + q).len() as int) =~= q.subrange(j, q.len() as int));
        }
    }
}

/// A line of text, a newline, and more: the line, then the lines of the rest.
proof fn lemma_lines_of_joined(x: Seq<char>, y: Seq<char>)
    requires
        lacks(x, '\n'),
        x.len() == 0 || x.last() != '\r',
    ensures
        lines_of(x + seq!['\n'] + y) == seq![x] + lines_of(y),
{
    let s = x + seq!['\n'] + y;
    lemma_line_end_at(s, 0, x.len() as int);
    assert(s.subrange(0, x.len() as int) =~= x);
    assert(s =~= (x + seq!['\n']) + y);
    lemma_lines_shift(x + seq!['\n'], y, 0);
}

/// A line of text with no newline in it is its one line.
proof fn lemma_lines_of_line(x: Seq<char>)
    requires
        lacks(x, '\n'),
        x.len() > 0,
    ensures
        lines_of(x) == seq![x],
{
    lemma_line_end_at(x, 0, x.len() as int);
    assert(x.subrange(0, x.len() as int) =~= x);
}

/// What the lines of a text are made of: no newlines, no carriage returns where the text had
/// none, and a last line with something in it where the text does not end in a newline.
proof fn lemma_lines_shape(s: Seq<char>, i: int)
    requires
        0 <= i,
    ensures
        forall|k: int| 0 <= k < lines_from(s, i).len() ==> lacks(#[trigger] lines_from(s, i)[k], '\n'),
        lacks(s, '\r') ==> forall|k: int| 0 <= k < lines_from(s, i).len() ==> lacks(#[trigger] lines_from(s, i)[k], '\r'),
        i < s.len() && s.last() != '\n' ==> lines_from(s, i).len() > 0 && lines_from(s, i).last().len() > 0,
    decreases s.len() - i,
{
    if i < s.len() {
        lemma_line_end(s, i);
        lemma_line_end_clear(s, i);
        let e = line_end(s, i);
        let first = without_cr(s.subrange(i, e));
        assert(lacks(first, '\n'));
        assert(lacks(s, '\r') ==> lacks(first, '\r'));
        if e < s.len() {
            lemma_lines_shape(s, e + 1);
            let rest = lines_from(s, e + 1);
            assert(lines_from(s, i) == seq![first] + rest);
            assert forall|k: int| 0 <= k < lines_from(s, i).len() implies lacks(#[trigger] lines_from(s, i)[k], '\n') by {
                if k > 0 {
                    assert(lines_from(s, i)[k] == rest[k - 1]);
                }
            }
            if lacks(s, '\r') {
                assert forall|k: int| 0 <= k < lines_from(s, i).len() implies lacks(#[trigger] lines_from(s, i)[k], '\r') by {
                    if k > 0 {
                        assert(lines_from(s, i)[k] == rest[k - 1]);
                    }
                }
            }
        } else {
            let whole = s.subrange(i, s.len() as int);
            assert(lines_from(s, i) == seq![whole]);
            assert(lacks(whole, '\n'));
        }
    }
}

/// A text with more than one line, put together from the front: the first line, what goes
/// after it, and the rest.
proof fn lemma_hardened_front(lines: Seq<Seq<char>>)
    requires
        lines.len() >= 2,
    ensures
        hardened(lines) == lines[0] + joint(lines[0], lines[1]) + hardened(lines.drop_first()),
    decreases lines.len(),
{
    let n = lines.len();
    if n == 2 {
        assert(lines.drop_last() =~= seq![lines[0]]);
        assert(lines.drop_first() =~= seq![lines[1]]);
        assert(hardened(seq![lines[0]]) == lines[0]);
        assert(hardened(seq![lines[1]]) == lines[1]);
        assert(hardened(lines) == hardened(lines.drop_last()) + joint(lines[0], lines[1]) + lines[1]);
    } else {
        let front = lines.drop_last();
        lemma_hardened_front(front);
        assert(front.drop_first() =~= lines.drop_first().drop_last());
        let rest = lines.drop_first();
        assert(rest[rest.len() - 2] == lines[n - 2]);
        assert(rest.last() == lines.last());
        assert(hardened(lines) =~= lines[0] + joint(lines[0], lines[1]) + hardened(lines.drop_first()));
    }
}

/// The rendered lines past the first are those of the lines past the first.
proof fn lemma_hard_lines_rest(lines: Seq<Seq<char>>)
    requires
        lines.len() >= 1,
    ensures
        hard_lines(lines).drop_first() == hard_lines(lines.drop_first()),
{
    assert(hard_lines(lines).drop_first() =~= hard_lines(lines.drop_first()));
}

/// The rendered text splits back into the rendered lines.
proof fn lemma_lines_of_hardened(lines: Seq<Seq<char>>)
    requires
        lines.len() >= 1,
        forall|k: int| 0 <= k < lines.len() ==> lacks(#[trigger] lines[k], '\n') && lacks(lines[k], '\r'),
        lines.last().len() > 0,
    ensures
        lines_of(hardened(lines)) == hard_lines(lines),
    decreases lines.len(),
{
    let n = lines.len();
    if n == 1 {
        lemma_lines_of_line(lines[0]);
        assert(hard_lines(lines) =~= seq![lines[0]]);
    } else {
        let rest = lines.drop_first();
        lemma_hardened_front(lines);
        lemma_lines_of_hardened(rest);
        lemma_hard_lines_rest(lines);
        let x = hard_line(lines, 0);
        assert(lacks(lines[0], '\n') && lacks(lines[0], '\r'));
        assert(lacks(x, '\n'));
        assert(x.len() == 0 || x.last() != '\r');
        assert(lines[0] + joint(lines[0], lines[1]) =~= x + seq!['\n']);
        let h = hardened(rest);
        assert(hardened(lines) =~= x + seq!['\n'] + h);
        lemma_lines_of_joined(x, h);
        assert(hard_lines(lines) =~= seq![x] + hard_lines(rest));
    }
}

/// Two spaces more do not make a line any less blank.
proof fn lemma_white_spaces(line: Seq<char>)
    ensures
        all_white(line + seq![' ', ' ']) == all_white(line),
{
    let longer = line + seq![' ', ' '];
    if all_white(longer) {
        assert forall|i: int| 0 <= i < line.len() implies white(#[trigger] line[i]) by {
            assert(longer[i] == line[i]);
        }
    }
}

/// Rendering the rendered lines again puts back the same text.
proof fn lemma_hardened_hard_lines(lines: Seq<Seq<char>>)
    requires
        lines.len() >= 1,
    ensures
        hardened(hard_lines(lines)) == hardened(lines),
    decreases lines.len(),
{
    let n = lines.len();
    let m = hard_lines(lines);
    if n == 1 {
        assert(m =~= seq![lines[0]]);
    } else {
        let rest = lines.drop_first();
        lemma_hardened_front(lines);
        lemma_hardened_front(m);
        lemma_hard_lines_rest(lines);
        lemma_hardened_hard_lines(rest);
        lemma_white_spaces(lines[0]);
        lemma_white_spaces(lines[1]);
        assert(m[0] + joint(m[0], m[1]) =~= lines[0] + joint(lines[0], lines[1]));
    }
}

/// Rendering a block a second time leaves it as the first rendering made it: the line breaks
/// it has are hard ones already. This holds of every block that holds no carriage return and
/// does not end in a newline.
pub proof fn law_rendering_settles(block: Seq<char>, kind: Kind)
    requires
        lacks(block, '\r'),
        block.len() == 0 || block.last() != '\n',
    ensures
        rendered_text(rendered_text(block, kind), kind) == rendered_text(block, kind),
{
    if kind == Kind::Paragraph || kind == Kind::Quote || kind == Kind::List {
        let lines = lines_of(block);
        if block.len() == 0 {
            assert(hardened(lines) =~= Seq::<char>::empty());
        } else {
            lemma_lines_shape(block, 0);
            lemma_lines_of_hardened(lines);
            lemma_hardened_hard_lines(lines);
        }
    }
}


/// A block whose first event opens a heading, of any level, is a heading unless it is
/// nothing but an image; and that is the only way a block is a heading.
pub proof fn law_headings_are_headings(pieces: Seq<Piece>)
    ensures
        kind_in(pieces) == Kind::Heading <==> (lone_image_in(pieces) is None && pieces.len() > 0 && match pieces[0].event {
            Event::Start(name) => "Heading("@.is_prefix_of(name@),
            _ => false,
        }),
{
    reveal_strlit("Heading(");
    reveal_strlit("Paragraph");
    if pieces.len() > 0 {
        if let Event::Start(name) = pieces[0].event {
            if "Heading("@.is_prefix_of(name@) {
                assert(name@.subrange(0, 8) == "Heading("@);
                assert(name@[0] == name@.subrange(0, 8)[0]);
                assert(name@[0] == 'H');
                assert(name@ != "Paragraph"@) by {
                    assert("Paragraph"@[0] == 'P');
                }
            }
        }
    }
}

/// Whether an event closes an image.
pub open spec fn closes_image(event: Event) -> bool {
    match event {
        Event::End(name) => name@ == "Image"@,
        _ => false,
    }
}

/// Event `k` lies within an image: one opened before it and has not closed since.
pub open spec fn within_image(pieces: Seq<Piece>, k: int) -> bool {
    exists|j: int|
        0 <= j < k && (#[trigger] pieces[j]).event is Image && forall|m: int|
            j < m < k ==> !closes_image((#[trigger] pieces[m]).event)
}

/// How standing within an image moves on by one event.
proof fn lemma_within_step(pieces: Seq<Piece>, k: int)
    requires
        1 <= k <= pieces.len(),
    ensures
        pieces[k - 1].event is Image ==> within_image(pieces, k),
        closes_image(pieces[k - 1].event) ==> !within_image(pieces, k),
        !(pieces[k - 1].event is Image) && !closes_image(pieces[k - 1].event) ==> within_image(pieces, k)
            == within_image(pieces, k - 1),
{
    if pieces[k - 1].event is Image {
        assert(pieces[k - 1].event is Image);
    } else if closes_image(pieces[k - 1].event) {
        if within_image(pieces, k) {
            let j = choose|j: int|
                0 <= j < k && (#[trigger] pieces[j]).event is Image && forall|m: int|
                    j < m < k ==> !closes_image((#[trigger] pieces[m]).event);
            assert(j != k - 1);
            assert(!closes_image(pieces[k - 1].event));
        }
    } else {
        if within_image(pieces, k) {
            let j = choose|j: int|
                0 <= j < k && (#[trigger] pieces[j]).event is Image && forall|m: int|
                    j < m < k ==> !closes_image((#[trigger] pieces[m]).event);
            assert(j != k - 1);
            assert(pieces[j].event is Image);
            assert(within_image(pieces, k - 1));
        }
        if within_image(pieces, k - 1) {
            let j = choose|j: int|
                0 <= j < k - 1 && (#[trigger] pieces[j]).event is Image && forall|m: int|
                    j < m < k - 1 ==> !closes_image((#[trigger] pieces[m]).event);
            assert forall|m: int| j < m < k implies !closes_image((#[trigger] pieces[m]).event) by {
                if m < k - 1 {
                    assert(!closes_image(pieces[m].event));
                }
            }
            assert(pieces[j].event is Image);
        }
    }
}

/// The name `Image` stands for an image.
proof fn lemma_image_named()
    ensures
        element_named("Image"@) == Element::Image,
{
    reveal_strlit("Image");
    reveal_strlit("Paragraph");
    reveal_strlit("Heading(");
    reveal_strlit("CodeBlock");
    reveal_strlit("BlockQuote(");
    reveal_strlit("Table");
    reveal_strlit("List(");
    reveal_strlit("Item");
    reveal_strlit("Emphasis");
    reveal_strlit("Strong");
    reveal_strlit("Strikethrough");
    reveal_strlit("Link");
    let n = "Image"@;
    assert(n != "Table"@) by { assert(n[0] != "Table"@[0]); }
    assert(!"List("@.is_prefix_of(n)) by { assert(n.subrange(0, 5)[0] != "List("@[0]); }
}

/// While the image reading goes on, it knows whether it stands within the image.
proof fn lemma_scan_inside(pieces: Seq<Piece>, k: int)
    requires
        0 <= k <= pieces.len(),
    ensures
        image_scan(pieces.take(k)) matches ImageScan::Reading(_, inside) ==> inside == within_image(pieces, k),
    decreases k,
{
    if k > 0 {
        lemma_scan_inside(pieces, k - 1);
        lemma_within_step(pieces, k);
        let t = pieces.take(k);
        assert(t.drop_last() =~= pieces.take(k - 1));
        assert(t.last() == pieces[k - 1]);
        reveal_strlit("Image");
        reveal_strlit("Paragraph");
        lemma_image_named();
    }
}

/// A block whose events, outside the image itself, open or close anything but a paragraph
/// (a link, a quote, a list, a heading) is not a lone image.
pub proof fn law_lone_image_stands_alone(pieces: Seq<Piece>, k: int)
    requires
        0 <= k < pieces.len(),
        !within_image(pieces, k),
        match pieces[k].event {
            Event::Start(name) => name@ != "Paragraph"@,
            Event::End(name) => name@ != "Paragraph"@ && name@ != "Image"@,
            _ => false,
        },
    ensures
        lone_image_in(pieces) is None,
{
    reveal_strlit("Image");
    reveal_strlit("Paragraph");
    lemma_scan_inside(pieces, k);
    let t = pieces.take(k + 1);
    assert(t.drop_last() =~= pieces.take(k));
    assert(t.last() == pieces[k]);
    match pieces[k].event {
        Event::Start(name) => {
            assert(element_named(name@) != Element::Paragraph);
        },
        Event::End(name) => {
            assert(element_named(name@) != Element::Paragraph);
            assert(element_named(name@) != Element::Image);
        },
        _ => {},
    }
    lemma_ruled_stays(pieces, k + 1);
}

} // verus!
