use blogawrite::lint::{
    at, carry, checkable, checker_generation, checking, finish_check, learn, left_alone, loaded, misspelling,
    new_checker, overlaps, request_check, set_checking, tidy, CheckKey, Lint, Suggestion, CACHE_LIMIT,
};

fn lint(at: u32, len: u32, message: &str) -> Lint {
    Lint {
        at,
        len,
        message: message.to_string(),
        replacements: vec![format!("{message}!")],
        word: String::new(),
        pending: false,
    }
}

fn key(text: &str) -> CheckKey {
    CheckKey { text: text.to_string(), markdown: true }
}

#[test]
fn offers_the_narrowest_lint_the_cursor_stands_in() {
    let found = vec![lint(8, 11, "phrase"), lint(8, 4, "word"), lint(13, 6, "other")];
    assert_eq!(at(found, 9).map(|l| l.message), Some("word".to_string()));
}

#[test]
fn keeps_the_first_of_two_equally_narrow_lints() {
    let found = vec![lint(0, 4, "first"), lint(2, 4, "second")];
    assert_eq!(at(found, 3).map(|l| l.message), Some("first".to_string()));
}

#[test]
fn a_cursor_at_either_end_of_a_lint_stands_in_it() {
    assert_eq!(at(vec![lint(4, 3, "x")], 4).map(|l| l.at), Some(4));
    assert_eq!(at(vec![lint(4, 3, "x")], 7).map(|l| l.at), Some(4));
    assert!(at(vec![lint(4, 3, "x")], 8).is_none());
    assert!(at(vec![lint(4, 3, "x")], 3).is_none());
}

#[test]
fn a_cursor_that_stands_nowhere_finds_nothing() {
    assert!(at(vec![lint(0, 3, "x")], -1).is_none());
    assert!(at(Vec::new(), 0).is_none());
}

#[test]
fn overlapping_takes_any_shared_unit() {
    assert!(overlaps(&lint(2, 3, "x"), (4, 9)));
    assert!(!overlaps(&lint(2, 3, "x"), (5, 9)));
    assert!(!overlaps(&lint(6, 2, "x"), (2, 6)));
}

fn chars(text: &str) -> Vec<char> {
    text.chars().collect()
}

#[test]
fn checks_words_but_not_names() {
    let text = chars("The snake_case_naem and the h1 and utf8 and me@exampel.com a I.");
    // "The"
    assert!(checkable(0, 3, &text));
    // "naem" after an underscore
    assert!(!checkable(15, 19, &text));
    // "h1" holds a digit
    assert!(!checkable(28, 30, &text));
    // "me" before "@exampel"
    assert!(!checkable(44, 46, &text));
    // a single letter
    assert!(!checkable(60, 61, &text));
    // "I" at a sentence's end is too short; a word before a full stop that ends it is fine
    let sentence = chars("A tpyo. Another");
    assert!(checkable(2, 6, &sentence));
}

#[test]
fn tidies_lints_into_reading_order_and_drops_those_in_code() {
    let found = vec![lint(10, 2, "c"), lint(3, 5, "b"), lint(3, 2, "a"), lint(20, 4, "in code")];
    let tidied = tidy(found, &vec![(18, 30)]);
    let messages: Vec<&str> = tidied.iter().map(|l| l.message.as_str()).collect();
    assert_eq!(messages, ["a", "b", "c"]);
}

#[test]
fn keeps_lints_that_tie_in_the_order_they_came() {
    let found = vec![lint(3, 2, "one"), lint(3, 2, "two")];
    let tidied = tidy(found, &Vec::new());
    let messages: Vec<&str> = tidied.iter().map(|l| l.message.as_str()).collect();
    assert_eq!(messages, ["one", "two"]);
}

#[test]
fn leaves_alone_code_links_and_tables() {
    assert_eq!(left_alone("Call `x` now."), Some(vec![(5, 8)]));
    assert_eq!(left_alone("See [a](b) and 🙂 `c`."), Some(vec![(4, 10), (18, 21)]));
    assert_eq!(left_alone("plain words"), Some(Vec::new()));
    let table = left_alone("| a |\n| - |\n| 1 |\n").expect("a table");
    assert_eq!(table.len(), 1);
    assert_eq!(table[0].0, 0);
}

#[test]
fn carries_each_shape_of_suggestion_into_text() {
    let text = chars("an exampel here");
    let offsets: Vec<u32> = (0..=text.len() as u32).collect();
    let suggestions = vec![
        Suggestion::ReplaceWith(chars("example")),
        Suggestion::InsertAfter(chars("s")),
        Suggestion::Remove,
    ];
    let carried = carry(3, 10, "Misspelled.".to_string(), &suggestions, &offsets, &text).expect("in range");
    assert_eq!((carried.at, carried.len), (3, 7));
    assert_eq!(carried.replacements, ["example", "exampels", ""]);
    assert!(!carried.pending);
    assert!(carry(3, 99, String::new(), &suggestions, &offsets, &text).is_none());
}

#[test]
fn counts_a_lint_after_an_emoji_the_way_qt_does() {
    let text = chars("🙂 recieve it.");
    let offsets = blogawrite::text::utf16_offsets("🙂 recieve it.");
    let found = misspelling(2, 9, &offsets, &text).expect("in range");
    assert_eq!((found.at, found.len), (3, 7));
    assert_eq!(found.word, "recieve");
    assert_eq!(found.message, "`recieve` is not in the dictionary.");
    assert!(found.pending);
}

#[test]
fn says_nothing_until_loaded_and_while_switched_off() {
    let mut checker = new_checker();
    assert!(checking(&checker));
    assert_eq!(request_check(&mut checker, "I recieve mail.", true, true), (Vec::new(), false));
    loaded(&mut checker);
    set_checking(&mut checker, false);
    assert!(!checking(&checker));
    assert_eq!(request_check(&mut checker, "I recieve mail.", true, true), (Vec::new(), false));
}

#[test]
fn asks_once_and_then_answers_from_what_it_found() {
    let mut checker = new_checker();
    loaded(&mut checker);
    let (found, send) = request_check(&mut checker, "I recieve mail.", true, true);
    assert!(found.is_empty() && send);
    let (found, send) = request_check(&mut checker, "I recieve mail.", true, true);
    assert!(found.is_empty() && !send);
    let generation = checker_generation(&checker);
    finish_check(&mut checker, key("I recieve mail."), vec![lint(2, 7, "typo")]);
    assert_ne!(checker_generation(&checker), generation);
    let (found, send) = request_check(&mut checker, "I recieve mail.", true, true);
    assert_eq!(found.len(), 1);
    assert_eq!(found[0].message, "typo");
    assert!(!send);
    // The same text as plain text is another block altogether.
    let (found, send) = request_check(&mut checker, "I recieve mail.", false, true);
    assert!(found.is_empty() && send);
}

#[test]
fn switching_keeps_what_was_found_and_moves_the_generation() {
    let mut checker = new_checker();
    loaded(&mut checker);
    finish_check(&mut checker, key("a"), vec![lint(0, 1, "x")]);
    let generation = checker_generation(&checker);
    set_checking(&mut checker, false);
    assert_ne!(checker_generation(&checker), generation);
    set_checking(&mut checker, true);
    assert_eq!(request_check(&mut checker, "a", true, true).0.len(), 1);
}

#[test]
fn learning_a_word_forgets_what_was_found() {
    let mut checker = new_checker();
    loaded(&mut checker);
    finish_check(&mut checker, key("a"), vec![lint(0, 1, "x")]);
    learn(&mut checker);
    assert_eq!(request_check(&mut checker, "a", true, true), (Vec::new(), true));
}

#[test]
fn keeps_no_more_than_its_limit() {
    let mut checker = new_checker();
    loaded(&mut checker);
    for i in 0..=CACHE_LIMIT {
        finish_check(&mut checker, key(&i.to_string()), vec![lint(0, 1, "x")]);
    }
    // The oldest is forgotten, the newest kept.
    assert_eq!(request_check(&mut checker, "0", true, true).0.len(), 0);
    assert_eq!(request_check(&mut checker, &CACHE_LIMIT.to_string(), true, true).0.len(), 1);
    assert_eq!(request_check(&mut checker, "1", true, true).0.len(), 1);
}

#[test]
fn checks_until_it_is_told_not_to() {
    let mut checker = new_checker();
    assert!(checking(&checker));
    set_checking(&mut checker, false);
    assert!(!checking(&checker));
}
