//! What the Markdown parser reports about a piece of text, in terms the rest of the library
//! can read: each event it emits, with the span of the source it covers.

use vstd::prelude::*;
use vstd::string::StrSliceExecFns;
use pulldown_cmark::{Event as Parsed, Options, Parser, Tag};
use crate::text::chars_of;

verus! {

/// One parser event. Elements are named as `pulldown_cmark::TagEnd` spells its variants
/// (`"Paragraph"`, `"Heading(H2)"`, `"List(false)"`, ...).
#[derive(Debug)]
pub enum Event {
    /// An element opens. Images open as [`Event::Image`] instead.
    Start(String),
    /// An image opens; it carries the image's destination.
    Image(String),
    /// An element closes.
    End(String),
    /// A run of text, with its contents.
    Text(String),
    /// Inline code, backticks and all.
    Code,
    /// A thematic break.
    Rule,
    /// A task list's checkbox.
    TaskListMarker,
    /// Anything else: HTML, breaks, footnote references, math.
    Other,
}

/// An event and the byte range of the source it stands for.
#[derive(Debug)]
pub struct Piece {
    pub event: Event,
    pub start: usize,
    pub end: usize,
}

/// What the CommonMark parser makes of `text`, with tables, strikethrough and footnotes
/// switched on: its events in order, each with its source range.
pub uninterp spec fn parsed(text: Seq<char>) -> Seq<Piece>;

/// `pulldown_cmark::Parser::new_ext(text, options).into_offset_iter()`, with tables,
/// strikethrough and footnotes on. Each event is handed over as it came, the tag of a start
/// or end by its `Debug` name. Nothing is claimed of what the parser reports beyond its
/// being a function of `text` alone: its events and ranges are named [`parsed`].
#[verifier::external_body]
pub(crate) fn parse_pieces(text: &str) -> (pieces: Vec<Piece>)
    ensures
        pieces@ == parsed(text@),
{
    let options = Options::ENABLE_TABLES | Options::ENABLE_STRIKETHROUGH | Options::ENABLE_FOOTNOTES;
    Parser::new_ext(text, options).into_offset_iter().map(|(event, span)| {
        let event = match event {
            Parsed::Start(Tag::Image { dest_url, .. }) => Event::Image(dest_url.to_string()),
            Parsed::Start(tag) => Event::Start(format!("{:?}", tag.to_end())),
            Parsed::End(end) => Event::End(format!("{:?}", end)),
            Parsed::Text(text) => Event::Text(text.to_string()),
            Parsed::Code(_) => Event::Code,
            Parsed::Rule => Event::Rule,
            Parsed::TaskListMarker(_) => Event::TaskListMarker,
            _ => Event::Other,
        };
        Piece { event, start: span.start, end: span.end }
    }).collect()
}

/// The elements the editor tells apart.
#[derive(Clone, Copy, Debug, PartialEq, Eq, Structural)]
pub enum Element {
    Paragraph,
    Heading,
    CodeBlock,
    BlockQuote,
    Table,
    List,
    Item,
    Emphasis,
    Strong,
    Strikethrough,
    Link,
    Image,
    Other,
}

/// The element a tag's name stands for.
pub open spec fn element_named(name: Seq<char>) -> Element {
    if name == "Paragraph"@ {
        Element::Paragraph
    } else if "Heading("@.is_prefix_of(name) {
        Element::Heading
    } else if name == "CodeBlock"@ {
        Element::CodeBlock
    } else if "BlockQuote("@.is_prefix_of(name) {
        Element::BlockQuote
    } else if name == "Table"@ {
        Element::Table
    } else if "List("@.is_prefix_of(name) {
        Element::List
    } else if name == "Item"@ {
        Element::Item
    } else if name == "Emphasis"@ {
        Element::Emphasis
    } else if name == "Strong"@ {
        Element::Strong
    } else if name == "Strikethrough"@ {
        Element::Strikethrough
    } else if name == "Link"@ {
        Element::Link
    } else if name == "Image"@ {
        Element::Image
    } else {
        Element::Other
    }
}

/// Whether `word` starts `name`.
fn begins_with(name: &Vec<char>, word: &str) -> (b: bool)
    ensures
        b == word@.is_prefix_of(name@),
{
    let letters = chars_of(word);
    if letters.len() > name.len() {
        return false;
    }
    let mut i: usize = 0;
    while i < letters.len()
        invariant
            letters@ == word@,
            letters.len() <= name.len(),
            0 <= i <= letters.len(),
            forall|j: int| 0 <= j < i ==> letters@[j] == name@[j],
        decreases letters.len() - i,
    {
        if letters[i] != name[i] {
            proof {
                if word@.is_prefix_of(name@) {
                    assert(letters@[i as int] == name@.subrange(0, word@.len() as int)[i as int]);
                }
            }
            return false;
        }
        i = i + 1;
    }
    assert(letters@ =~= name@.subrange(0, word@.len() as int));
    true
}

/// Whether `name` is exactly `word`.
fn is_word(name: &Vec<char>, word: &str) -> (b: bool)
    ensures
        b == (name@ == word@),
{
    let prefix = begins_with(name, word);
    let same = prefix && word.unicode_len() == name.len();
    proof {
        if same {
            assert(name@ =~= word@);
        }
    }
    same
}

/// The element a tag's name stands for.
pub fn element_of(name: &String) -> (element: Element)
    ensures
        element == element_named(name@),
{
    let name = chars_of(name.as_str());
    if is_word(&name, "Paragraph") {
        Element::Paragraph
    } else if begins_with(&name, "Heading(") {
        Element::Heading
    } else if is_word(&name, "CodeBlock") {
        Element::CodeBlock
    } else if begins_with(&name, "BlockQuote(") {
        Element::BlockQuote
    } else if is_word(&name, "Table") {
        Element::Table
    } else if begins_with(&name, "List(") {
        Element::List
    } else if is_word(&name, "Item") {
        Element::Item
    } else if is_word(&name, "Emphasis") {
        Element::Emphasis
    } else if is_word(&name, "Strong") {
        Element::Strong
    } else if is_word(&name, "Strikethrough") {
        Element::Strikethrough
    } else if is_word(&name, "Link") {
        Element::Link
    } else if is_word(&name, "Image") {
        Element::Image
    } else {
        Element::Other
    }
}

} // verus!
