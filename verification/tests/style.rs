use blogawrite::style::{style_mask, BOLD, CODE, HIDDEN, ITALIC, LINK, MARKER, STRIKE, UNCHECKED};

/// The mask as one letter per UTF-16 unit: what the highlighter would draw there.
fn picture(text: &str, cursor: i32) -> String {
    drawing(&style_mask(text, cursor, false))
}

fn drawing(mask: &[u16]) -> String {
    mask.iter()
        .map(|bits| match bits {
            _ if bits & HIDDEN != 0 => 'h',
            _ if bits & MARKER != 0 => 'm',
            _ if bits & CODE != 0 => 'c',
            _ if bits & LINK != 0 => 'l',
            _ if bits & (BOLD | ITALIC) == BOLD | ITALIC => '3',
            _ if bits & BOLD != 0 => 'b',
            _ if bits & ITALIC != 0 => 'i',
            _ if bits & STRIKE != 0 => 's',
            _ => '.',
        })
        .collect()
}

#[test]
fn shrinks_the_markers_away_and_brings_them_back_under_the_cursor() {
    assert_eq!(picture("**bold**", -1), "hhbbbbhh");
    assert_eq!(picture("**bold**", 3), "mmbbbbmm");
    assert_eq!(picture("a ~~gone~~ b", -1), "..hhsssshh..");
}

#[test]
fn nests_emphasis_the_way_markdown_does() {
    assert_eq!(picture("**a *b* c**", -1), "hhbbh3hbbhh");
}

#[test]
fn leaves_an_underscore_inside_a_word_alone() {
    assert_eq!(picture("snake_case_name", -1), ".".repeat(15));
}

#[test]
fn marks_code_and_keeps_the_checker_off_it() {
    assert_eq!(picture("`x y`", -1), "hccch");
    assert_eq!(picture("`x y`", 2), "mcccm");
    let mask = style_mask("`x`", -1, false);
    assert!(mask.iter().all(|bits| bits & UNCHECKED != 0));
}

#[test]
fn marks_a_link_whole_and_keeps_the_checker_off_it() {
    assert_eq!(picture("[a](b)", -1), "hlhhhh");
    assert_eq!(picture("[a](b)", 1), "mlmmmm");
    let mask = style_mask("[a](b)", -1, false);
    assert!(mask.iter().all(|bits| bits & UNCHECKED != 0));
}

/// A bullet is how the line reads, not punctuation: it stays legible either way.
#[test]
fn keeps_a_list_marker_in_view() {
    assert_eq!(picture("- one", -1), "mm...");
    assert_eq!(picture("1. one", -1), "mmm...");
    assert_eq!(picture("- one\n- two", -1), "mm....mm...");
}

#[test]
fn style_counts_positions_the_way_qt_does() {
    // The emoji is two UTF-16 units, so the mask has an entry for each of them.
    assert_eq!(picture("🙂 **b**", -1), "...hhbhh");
    assert_eq!(picture("🙂 **b**", 4), "...mmbmm");
}

#[test]
fn opens_a_fenced_block_only_at_its_ends() {
    let block = "```rs\ncode\n```";
    assert_eq!(drawing(&style_mask(block, -1, true)), "hhhhh......hhh");
    assert_eq!(drawing(&style_mask(block, 0, true)), "mmmmm......mmm");
    assert_eq!(drawing(&style_mask(block, 14, true)), "mmmmm......mmm");
    // The cursor down in the code itself leaves the fences shut.
    assert_eq!(drawing(&style_mask(block, 8, true)), "hhhhh......hhh");
}

#[test]
fn gives_one_entry_per_utf16_unit() {
    for text in ["", "plain", "é and €", "🙂🙂", "**🙂**"] {
        assert_eq!(style_mask(text, -1, false).len(), text.encode_utf16().count());
        assert_eq!(style_mask(text, 0, true).len(), text.encode_utf16().count());
    }
}

#[test]
fn leaves_a_tilde_fence_and_an_indented_one_alike() {
    let block = "  ~~~\nx\n~~~";
    assert_eq!(drawing(&style_mask(block, -1, true)), "hhhhh...hhh");
    assert_eq!(drawing(&style_mask("not a fence\nx", -1, true)), ".............");
}
