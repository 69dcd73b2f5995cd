use blogawrite::block::{kind, lone_image, rendered};
use blogawrite::parse::{segments, Segments};

/// The blocks of `source`, which is what the model is built out of. An empty document is
/// one empty block, so that there is always somewhere to type.
fn segment(source: &str) -> Vec<String> {
    if source.trim().is_empty() {
        return vec![String::new()];
    }
    segments(source).blocks
}

/// The blocks put back together with one blank line between them.
fn roundtrip(source: &str) -> String {
    segment(source).join("\n\n")
}

/// The document put back together byte for byte, which is what saving does.
fn exact_roundtrip(source: &str) -> String {
    let Segments { blocks, gaps } = segments(source);
    let mut text = gaps[0].clone();
    for (index, block) in blocks.iter().enumerate() {
        text.push_str(block);
        text.push_str(&gaps[index + 1]);
    }
    text
}

#[test]
fn splits_headings_and_paragraphs() {
    let blocks = segment("# Title\n\nA paragraph.\n\n## Sub\n\nAnother one.\n");
    assert_eq!(blocks, ["# Title", "A paragraph.", "## Sub", "Another one."]);
}

#[test]
fn keeps_a_list_whole() {
    let source = "Intro\n\n- one\n- two\n  - nested\n- three\n\nOutro";
    let blocks = segment(source);
    assert_eq!(blocks.len(), 3);
    assert_eq!(blocks[1], "- one\n- two\n  - nested\n- three");
    assert_eq!(roundtrip(source), source);
}

#[test]
fn keeps_a_fenced_code_block_whole() {
    let source = "```rust\nfn main() {\n\n    println!(\"hi\");\n}\n```";
    assert_eq!(segment(source), [source]);
    assert_eq!(roundtrip(source), source);
}

#[test]
fn keeps_a_blockquote_whole() {
    let source = "> quoted\n> lines\n\nafter";
    assert_eq!(segment(source), ["> quoted\n> lines", "after"]);
}

#[test]
fn preserves_setext_headings() {
    let source = "Title\n=====\n\nbody";
    assert_eq!(segment(source), ["Title\n=====", "body"]);
}

#[test]
fn handles_rules_and_tables() {
    let source = "a\n\n---\n\n| x | y |\n| - | - |\n| 1 | 2 |\n\nb";
    let blocks = segment(source);
    assert_eq!(blocks.len(), 4);
    assert_eq!(blocks[1], "---");
    assert_eq!(roundtrip(source), source);
}

#[test]
fn semantic_join_normalizes_blank_lines() {
    assert_eq!(roundtrip("a\n\n\n\nb"), "a\n\nb");
}

#[test]
fn exact_segments_preserve_all_whitespace() {
    for source in ["a\n\n\n\nb", "  a  \n\n b\n", "", "   \n\n "] {
        assert_eq!(exact_roundtrip(source), source);
    }
}

#[test]
fn exact_segments_keep_html_and_reference_definitions() {
    for source in [
        "<section>\nraw html\n</section>\n",
        "[home]: https://example.com\n\nGo [home].\n",
    ] {
        assert_eq!(exact_roundtrip(source), source);
        assert!(segments(source).blocks.iter().any(|block| !block.is_empty()));
    }
}

#[test]
fn empty_source_is_one_empty_block() {
    assert_eq!(segment(""), [""]);
    assert_eq!(segment("   \n\n "), [""]);
}

#[test]
fn a_blank_source_is_one_block_holding_it_all() {
    let Segments { blocks, gaps } = segments("   \n\n ");
    assert_eq!(blocks, ["   \n\n "]);
    assert_eq!(gaps, ["", ""]);
}

#[test]
fn every_gap_between_blocks_is_whitespace() {
    let source = "  # Title  \n\n[ref]: /x\n\npara  \n";
    let Segments { blocks, gaps } = segments(source);
    assert_eq!(gaps.len(), blocks.len() + 1);
    assert!(gaps.iter().all(|gap| gap.trim().is_empty()));
    assert!(blocks.iter().all(|block| !block.trim().is_empty()));
    assert_eq!(exact_roundtrip(source), source);
}

#[test]
fn names_block_kinds() {
    assert_eq!(kind("# Title"), "heading");
    assert_eq!(kind("Title\n====="), "heading");
    assert_eq!(kind("Just words."), "paragraph");
    assert_eq!(kind("- one\n- two"), "list");
    assert_eq!(kind("1. one"), "list");
    assert_eq!(kind("```rust\nfn main() {}\n```"), "code");
    assert_eq!(kind("> quoted"), "quote");
    assert_eq!(kind("| a | b |\n| - | - |\n| 1 | 2 |"), "table");
    assert_eq!(kind("---"), "rule");
    assert_eq!(kind("![alt](pic.png)"), "image");
    assert_eq!(kind(""), "paragraph");
}

#[test]
fn detects_lone_images() {
    assert_eq!(lone_image("![alt](pic.png)"), Some("pic.png".into()));
    assert_eq!(lone_image("text ![alt](pic.png) more"), None);
    assert_eq!(lone_image("# heading"), None);
    assert_eq!(lone_image("![a](1.png) ![b](2.png)"), None);
}

#[test]
fn hardens_the_line_breaks_a_writer_typed() {
    assert_eq!(rendered("TITLE: t\nAUTHOR: a"), "TITLE: t  \nAUTHOR: a");
    assert_eq!(rendered("> one\n> two"), "> one  \n> two");
    assert_eq!(rendered("- one\n- two"), "- one  \n- two");
    assert_eq!(rendered("alone"), "alone");
}

#[test]
fn leaves_breaks_that_are_already_there() {
    assert_eq!(rendered("one  \ntwo\\\nthree"), "one  \ntwo\\\nthree");
    assert_eq!(rendered("- one\n\n- two"), "- one\n\n- two");
}

#[test]
fn leaves_blocks_whose_newlines_are_structure() {
    for block in ["```\ncode\n  here\n```", "| a |\n| - |\n| 1 |", "Title\n====="] {
        assert_eq!(rendered(block), block);
    }
}

#[test]
fn drops_the_carriage_return_of_a_windows_line_ending() {
    assert_eq!(rendered("one\r\ntwo\r\n"), "one  \ntwo");
}

#[test]
fn rendering_twice_is_rendering_once() {
    for block in ["TITLE: t\nAUTHOR: a", "> one\n> two", "- one\n- two\n\n  three", "one  \ntwo\\\nthree", "a\n \nb"] {
        let once = rendered(block);
        assert_eq!(rendered(&once), once, "{block:?}");
    }
}
