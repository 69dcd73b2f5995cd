use blogawrite::document::{replacement, source, wrapped, DocumentRust, LintLook, Occurrence, UNDO_LIMIT};
use blogawrite::lint::{new_checker, Lint};
use blogawrite::parse::segments;

fn opened(text: &str) -> DocumentRust {
    let mut doc = DocumentRust::new(true);
    doc.opened(segments(text), None);
    doc
}

fn blocks(doc: &DocumentRust) -> Vec<&str> {
    doc.blocks.iter().map(|b| b.as_str()).collect()
}

fn gaps(doc: &DocumentRust) -> Vec<&str> {
    doc.gaps.iter().map(|g| g.as_str()).collect()
}

#[test]
fn a_new_document_is_one_empty_block() {
    let doc = DocumentRust::new(true);
    assert_eq!(blocks(&doc), vec![""]);
    assert_eq!(gaps(&doc), vec!["", ""]);
    assert_eq!(doc.text(), "");
    assert_eq!(doc.active_index, 0);
    assert_eq!(doc.selection_anchor, -1);
    assert!(doc.checking);
    assert!(!DocumentRust::new(false).checking);
}

#[test]
fn a_document_opened_and_saved_unchanged_is_the_same_file() {
    let text = "  # Title\n\nA paragraph.\n\n\n\n## Sub\n\n[home]: https://example.com\n";
    let doc = opened(text);
    assert_eq!(doc.text(), text);
    assert!(!doc.dirty);
    assert_eq!(doc.active_index, doc.blocks.len() as i32 - 1);
    assert_eq!(doc.pending_cursor, -1);
    assert_eq!(doc.undo.len(), 1);
}

#[test]
fn the_remembered_position_is_held_within_the_document() {
    let mut doc = DocumentRust::new(true);
    doc.opened(segments("a\n\nb\n\nc"), Some(1));
    assert_eq!(doc.active_index, 1);
    doc.opened(segments("a\n\nb\n\nc"), Some(99));
    assert_eq!(doc.active_index, 2);
    doc.opened(segments("a\n\nb\n\nc"), Some(-4));
    assert_eq!(doc.active_index, 0);
    doc.restore_position(None);
    assert_eq!(doc.active_index, 2);
}

#[test]
fn a_run_of_typing_is_one_thing_to_undo() {
    let mut doc = opened("a\n\nb");
    assert_eq!(doc.undo.len(), 1);
    doc.set_block_text(1, "bx".to_string(), 2);
    doc.set_block_text(1, "bxy".to_string(), 3);
    doc.set_block_text(1, "bxyz".to_string(), 4);
    assert!(doc.typing);
    assert_eq!(doc.undo.len(), 2);
    assert_eq!(doc.revision, 1);
    assert!(doc.dirty);
    doc.undo();
    assert_eq!(blocks(&doc), vec!["a", "b"]);
    assert_eq!(doc.revision, 0);
    assert!(!doc.dirty);
    assert_eq!(doc.undo.len(), 1);
}

#[test]
fn the_pause_ends_a_run_of_typing() {
    let mut doc = opened("a\n\nb");
    doc.set_block_text(1, "bx".to_string(), 2);
    assert!(!doc.settled);
    doc.settle(true);
    assert!(!doc.typing);
    doc.set_block_text(1, "bxy".to_string(), 3);
    assert_eq!(doc.undo.len(), 3);
    doc.undo();
    assert_eq!(blocks(&doc), vec!["a", "bx"]);
    assert_eq!(doc.cursor_position, 2);
    assert_eq!(doc.pending_cursor, 2);
}

#[test]
fn setting_the_text_a_block_already_holds_changes_nothing() {
    let mut doc = opened("a\n\nb");
    assert_eq!(doc.set_block_text(1, "b".to_string(), 1), LintLook::Unchanged);
    assert_eq!(doc.set_block_text(7, "z".to_string(), 1), LintLook::Unchanged);
    assert_eq!(doc.set_block_text(-1, "z".to_string(), 1), LintLook::Unchanged);
    assert_eq!(doc.undo.len(), 1);
    assert!(!doc.dirty);
}

#[test]
fn nothing_to_undo_leaves_the_document_alone() {
    let mut doc = opened("a");
    assert_eq!(doc.undo(), LintLook::Unchanged);
    assert_eq!(blocks(&doc), vec!["a"]);
    assert_eq!(doc.undo.len(), 1);
}

#[test]
fn the_history_keeps_only_so_many_steps() {
    let mut doc = opened("a");
    for n in 0..UNDO_LIMIT + 10 {
        doc.push_undo(n as i32);
    }
    assert_eq!(doc.undo.len(), UNDO_LIMIT);
    assert_eq!(doc.undo[UNDO_LIMIT - 1].cursor_position, (UNDO_LIMIT + 9) as i32);
}

#[test]
fn an_emptied_block_disappears_when_the_cursor_leaves_it() {
    let mut doc = opened("a\n\nb");
    doc.set_block_text(1, "   ".to_string(), 3);
    doc.activate(0);
    assert_eq!(blocks(&doc), vec!["a"]);
    assert_eq!(gaps(&doc), vec!["", "\n\n"]);
    assert_eq!(doc.text(), "a\n\n");
    assert_eq!(doc.active_index, 0);
    assert_eq!(doc.pending_cursor, -1);
}

#[test]
fn the_last_block_stays_even_when_emptied() {
    let mut doc = opened("a");
    doc.set_block_text(0, " ".to_string(), 1);
    assert_eq!(doc.commit(0), 0);
    assert_eq!(blocks(&doc), vec![" "]);
}

#[test]
fn a_block_typed_into_two_becomes_two_rows_when_left() {
    let mut doc = opened("a");
    doc.set_block_text(0, "one\n\n\ntwo  ".to_string(), 3);
    doc.activate(1);
    assert_eq!(blocks(&doc), vec!["one", "two"]);
    assert_eq!(gaps(&doc), vec!["", "\n\n\n", ""]);
    assert_eq!(doc.active_index, 1);
    assert_eq!(doc.text(), "one\n\n\ntwo");
}

#[test]
fn rows_added_before_the_target_carry_it_along() {
    let mut doc = opened("x\n\ny\n\nz");
    doc.activate(0);
    doc.set_block_text(0, "p\n\nq\n\nr".to_string(), 1);
    doc.activate(2);
    assert_eq!(blocks(&doc), vec!["p", "q", "r", "y", "z"]);
    assert_eq!(doc.active_index, 4);
}

#[test]
fn a_block_that_reads_as_itself_is_left_alone() {
    let mut doc = opened("a\n\nb");
    assert_eq!(doc.commit(1), 0);
    assert_eq!(doc.commit(5), 0);
    assert_eq!(doc.commit(-1), 0);
    assert_eq!(blocks(&doc), vec!["a", "b"]);
}

#[test]
fn moving_keeps_to_the_near_edge_of_the_block() {
    let mut doc = opened("a\n\nb\n\nc");
    doc.move_to(0, -1);
    assert_eq!(doc.active_index, 0);
    assert_eq!(doc.pending_cursor, -1);
    doc.move_to(1, 1);
    assert_eq!(doc.active_index, 1);
    assert_eq!(doc.pending_cursor, 0);
    doc.activate(40);
    assert_eq!(doc.active_index, 2);
    doc.activate(-3);
    assert_eq!(doc.active_index, 0);
}

#[test]
fn merging_keeps_the_cursor_at_the_seam() {
    let mut doc = opened("ab\n\ncd\n\nef");
    doc.merge_with_previous(1);
    assert_eq!(blocks(&doc), vec!["abcd", "ef"]);
    assert_eq!(gaps(&doc), vec!["", "\n\n", ""]);
    assert_eq!(doc.active_index, 0);
    assert_eq!(doc.pending_cursor, 2);
    assert!(doc.dirty);
    assert_eq!(doc.merge_with_previous(0), LintLook::Unchanged);
    assert_eq!(doc.merge_with_previous(2), LintLook::Unchanged);
}

#[test]
fn merging_counts_the_seam_the_way_qt_does() {
    let mut doc = opened("🙂\n\nx");
    doc.merge_with_previous(1);
    assert_eq!(blocks(&doc), vec!["🙂x"]);
    assert_eq!(doc.pending_cursor, 2);
    assert_eq!(doc.cursor_position, 2);
}

#[test]
fn splitting_a_block_starts_the_second_half() {
    let mut doc = opened("hello world");
    doc.split_block(0, "hello", "world");
    assert_eq!(blocks(&doc), vec!["hello", "world"]);
    assert_eq!(gaps(&doc), vec!["", "\n\n", ""]);
    assert_eq!(doc.active_index, 1);
    assert_eq!(doc.pending_cursor, 0);
    assert_eq!(doc.text(), "hello\n\nworld");
    doc.undo();
    assert_eq!(blocks(&doc), vec!["hello world"]);
    assert_eq!(doc.split_block(3, "a", "b"), LintLook::Unchanged);
}

#[test]
fn deleting_a_selection_joins_its_two_ends() {
    let mut doc = opened("ab\n\ncd\n\nef\n\ngh");
    doc.delete_selection(0, 2, "af".to_string(), 1);
    assert_eq!(blocks(&doc), vec!["af", "gh"]);
    assert_eq!(gaps(&doc), vec!["", "\n\n", ""]);
    assert_eq!(doc.active_index, 0);
    assert_eq!(doc.pending_cursor, 1);
    assert_eq!(doc.selection_anchor, -1);
    doc.delete_selection(1, 1, "g".to_string(), 1);
    assert_eq!(doc.text(), "af\n\ng");
}

#[test]
fn a_selection_grows_from_where_it_started() {
    let mut doc = opened("a\n\nb\n\nc");
    assert_eq!(doc.active_index, 2);
    doc.select_to(0, 5);
    assert_eq!(doc.selection_anchor, 2);
    assert_eq!(doc.selection_position, 5);
    assert_eq!(doc.active_index, 0);
    assert_eq!(doc.pending_cursor, -1);
    doc.select_to(1, 9);
    assert_eq!(doc.selection_anchor, 2);
    assert_eq!(doc.selection_position, 5);
    assert_eq!(doc.pending_cursor, 0);
    assert_eq!(doc.select_to(1, 0), LintLook::Unchanged);
    assert_eq!(doc.select_to(3, 0), LintLook::Unchanged);
    doc.clear_selection(1);
    assert_eq!(doc.selection_anchor, -1);
    doc.select_all();
    assert_eq!(doc.selection_anchor, 0);
    assert_eq!(doc.selection_position, 0);
    assert_eq!(doc.active_index, 2);
    assert_eq!(doc.pending_cursor, -1);
}

#[test]
fn a_found_word_is_put_under_the_cursor() {
    let mut doc = opened("a\n\nb\n\nc");
    doc.open_search();
    assert!(doc.search_active);
    doc.search_for(Some(Occurrence { block: 1, at: 2, end: 5 }), 3, 0);
    assert_eq!(doc.search_at, 2);
    assert_eq!(doc.active_index, 1);
    assert_eq!(doc.pending_cursor, 5);
    assert_eq!(doc.search_count, 3);
    assert_eq!(doc.search_choice, 0);
    assert_eq!(doc.search_serial, 1);
    doc.cycle_search(Some(Occurrence { block: 0, at: 0, end: 1 }), 3, 1);
    assert_eq!(doc.active_index, 0);
    assert_eq!(doc.search_serial, 2);
    doc.search_for(None, 0, -1);
    assert_eq!(doc.search_at, -1);
    assert_eq!(doc.search_count, 0);
    doc.cycle_search(None, 1, 0);
    assert!(doc.search_alone);
    doc.close_search();
    assert!(!doc.search_active);
    assert!(!doc.search_alone);
    assert_eq!(doc.search_choice, -1);
}

#[test]
fn opening_the_search_rereads_the_block_being_edited() {
    let mut doc = opened("a");
    doc.set_block_text(0, "x\n\ny".to_string(), 1);
    doc.select_all();
    doc.open_search();
    assert_eq!(blocks(&doc), vec!["x", "y"]);
    assert_eq!(doc.active_index, 0);
    assert_eq!(doc.selection_anchor, -1);
}

#[test]
fn suggestions_wrap_around_either_way() {
    assert_eq!(wrapped(0, 1, 3), 1);
    assert_eq!(wrapped(2, 1, 3), 0);
    assert_eq!(wrapped(0, -1, 3), 2);
    assert_eq!(wrapped(-7, 0, 3), 2);
    assert_eq!(wrapped(i32::MAX, i32::MAX, 5), ((2 * i32::MAX as i64) % 5) as i32);
}

#[test]
fn shows_what_the_checker_found_and_cycles_its_suggestions() {
    let mut doc = opened("I recieve mail.");
    let found = Lint {
        at: 2,
        len: 7,
        message: "Did you mean to spell `recieve` this way?".to_string(),
        replacements: vec!["receive".to_string(), "relieve".to_string(), "recede".to_string()],
        word: "recieve".to_string(),
        pending: false,
    };
    doc.show_lint(Some(found));
    assert_eq!(doc.lint_at, 2);
    assert_eq!(doc.lint_length, 7);
    assert_eq!(doc.lint_options, 3);
    assert_eq!(doc.lint_word, "recieve");
    assert_eq!(doc.lint_replacement, "receive");
    doc.cycle_lint(-1);
    assert_eq!(doc.lint_choice, 2);
    assert_eq!(doc.lint_replacement, "recede");
    doc.cycle_lint(1);
    assert_eq!(doc.lint_replacement, "receive");
    doc.show_lint(None);
    assert_eq!(doc.lint_at, -1);
    assert_eq!(doc.lint_options, 0);
    assert_eq!(doc.lint_replacement, "");
    assert_eq!(doc.lint_message, "");
}

#[test]
fn a_lint_with_nothing_to_suggest_has_no_span() {
    let mut doc = opened("a");
    let found = Lint {
        at: 4,
        len: 2,
        message: "Something is off.".to_string(),
        replacements: vec![],
        word: String::new(),
        pending: false,
    };
    doc.show_lint(Some(found));
    assert_eq!(doc.lint_at, -1);
    assert_eq!(doc.lint_length, 2);
    assert_eq!(doc.lint_message, "Something is off.");
    doc.cycle_lint(1);
    assert_eq!(doc.lint_choice, 0);
}

#[test]
fn the_checker_is_asked_only_once_the_typing_stops() {
    let mut doc = opened("a\n\nb");
    assert_eq!(doc.update_lint(3), LintLook::Ask { index: 1, cursor: 3 });
    doc.set_block_text(1, "bc".to_string(), 2);
    assert_eq!(doc.refresh_lint(), LintLook::Quiet);
    assert_eq!(doc.settle(true), LintLook::Ask { index: 1, cursor: 2 });
    assert_eq!(doc.settle(true), LintLook::Unchanged);
    doc.show_lint(None);
    assert_eq!(doc.lint_block, 1);
    assert_eq!(doc.update_lint(-1), LintLook::Unchanged);
    doc.activate(0);
    assert_eq!(doc.update_lint(-1), LintLook::Quiet);
}

#[test]
fn reading_quietens_the_checker_and_gives_the_cursor_back() {
    let mut doc = opened("a\n\nb");
    let mut checker = new_checker();
    doc.set_cursor_position(1, 1);
    doc.toggle_reading(&mut checker);
    assert!(doc.reading);
    assert!(!checker.on);
    doc.toggle_reading(&mut checker);
    assert!(!doc.reading);
    assert!(checker.on);
    assert_eq!(doc.pending_cursor, 1);
    doc.toggle_checking(&mut checker);
    assert!(!doc.checking);
    assert!(!checker.on);
    doc.toggle_reading(&mut checker);
    doc.toggle_reading(&mut checker);
    assert!(!checker.on);
    doc.toggle_checking(&mut checker);
    assert!(checker.on);
}

#[test]
fn the_cursor_is_remembered_only_in_the_block_being_edited() {
    let mut doc = opened("a\n\nb");
    assert_eq!(doc.set_cursor_position(0, 7), LintLook::Unchanged);
    assert_eq!(doc.cursor_position, -1);
    doc.set_cursor_position(1, 1);
    assert_eq!(doc.cursor_position, 1);
    assert_eq!(doc.undo.len(), 1);
    assert_eq!(doc.undo[0].cursor_position, 1);
}

#[test]
fn saving_makes_the_document_clean_until_it_changes() {
    let mut doc = opened("a");
    doc.set_block_text(0, "ab".to_string(), 2);
    assert!(doc.dirty);
    doc.saved();
    assert!(!doc.dirty);
    assert_eq!(doc.saved_revision, doc.revision);
    doc.settle(true);
    doc.set_block_text(0, "abc".to_string(), 3);
    assert!(doc.dirty);
    doc.undo();
    assert!(!doc.dirty);
}

#[test]
fn a_block_rereads_into_its_blocks_and_the_source_between() {
    let (parts, separators) = replacement("one\n\n\ntwo  ");
    assert_eq!(parts, vec!["one".to_string(), "two".to_string()]);
    assert_eq!(separators, vec!["\n\n\n".to_string()]);
    let (parts, separators) = replacement("");
    assert_eq!(parts, vec![String::new()]);
    assert!(separators.is_empty());
}

#[test]
fn the_source_is_the_gaps_and_blocks_in_turn() {
    let blocks = vec!["a".to_string(), "b".to_string()];
    let gaps = vec![" ".to_string(), "\n\n".to_string(), "\n".to_string()];
    assert_eq!(source(&blocks, &gaps), " a\n\nb\n");
}
