use blogawrite::text::{byte_offset, utf16_at, utf16_offsets};

#[test]
fn counts_an_emoji_as_two() {
    assert_eq!(utf16_at("🙂 a", 5), 3);
    assert_eq!(byte_offset("🙂 a", 3), 5);
    assert_eq!(utf16_offsets("🙂a"), [0, 2, 3]);
}

#[test]
fn stops_at_the_end_rather_than_running_past_it() {
    assert_eq!(byte_offset("ab", 9), 2);
    assert_eq!(byte_offset("ab", -1), 2);
}

#[test]
fn a_position_inside_an_emoji_lands_after_it() {
    // Unit 1 is the second half of the emoji: the first character starting at or past it
    // is the space, at byte 4.
    assert_eq!(byte_offset("🙂 a", 1), 4);
    assert_eq!(byte_offset("🙂 a", 0), 0);
}

#[test]
fn counts_two_and_three_byte_characters() {
    assert_eq!(byte_offset("é€x", 2), 5);
    assert_eq!(utf16_at("é€x", 5), 2);
    assert_eq!(utf16_at("é€x", 0), 0);
    assert_eq!(utf16_at("é€x", 6), 3);
    assert_eq!(utf16_offsets(""), [0]);
    assert_eq!(utf16_offsets("é€x"), [0, 1, 2, 3]);
}

#[test]
fn byte_offset_and_utf16_at_undo_each_other() {
    let text = "a🙂b€c";
    for (at, units) in [(0, 0), (1, 1), (3, 3), (4, 4), (5, 5), (6, 6)] {
        let byte = byte_offset(text, at);
        assert_eq!(utf16_at(text, byte), units);
    }
}
