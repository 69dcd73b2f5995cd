//! Counting text the way Qt counts it. Rust indexes a string in bytes, the checker in
//! characters, and a QString in UTF-16 units; every offset that crosses between them comes
//! through here.

use vstd::prelude::*;
use vstd::string::StringSliceAdditionalSpecFns;
use vstd::string::StrSliceExecFns;

verus! {

broadcast use vstd::utf8::char_is_scalar;

/// How many bytes `c` takes in UTF-8.
pub open spec fn utf8_width(c: char) -> nat {
    if (c as u32) < 0x80 {
        1
    } else if (c as u32) < 0x800 {
        2
    } else if (c as u32) < 0x10000 {
        3
    } else {
        4
    }
}

/// How many UTF-16 units `c` takes: two for anything outside the basic plane.
pub open spec fn utf16_width(c: char) -> nat {
    if (c as u32) < 0x10000 {
        1
    } else {
        2
    }
}

/// The length of `s` in UTF-8 bytes.
pub open spec fn utf8_len(s: Seq<char>) -> nat
    decreases s.len(),
{
    if s.len() == 0 {
        0
    } else {
        utf8_len(s.drop_last()) + utf8_width(s.last())
    }
}

/// The length of `s` in UTF-16 units.
pub open spec fn utf16_len(s: Seq<char>) -> nat
    decreases s.len(),
{
    if s.len() == 0 {
        0
    } else {
        utf16_len(s.drop_last()) + utf16_width(s.last())
    }
}

/// Byte offset `byte` is where character `k` of `s` starts (or the end, for `k == s.len()`).
pub open spec fn starts_char(s: Seq<char>, k: int, byte: int) -> bool {
    0 <= k <= s.len() && utf8_len(s.take(k)) == byte
}

/// Byte offset `byte` falls on a character boundary of `s`.
pub open spec fn is_boundary(s: Seq<char>, byte: int) -> bool {
    exists|k: int| starts_char(s, k, byte)
}

/// Character `k` is the first of `s` that starts at or past UTF-16 unit `at`; `s.len()` when
/// none does.
pub open spec fn first_at_unit(s: Seq<char>, at: int, k: int) -> bool {
    &&& 0 <= k <= s.len()
    &&& (k == s.len() || utf16_len(s.take(k)) >= at)
    &&& forall|j: int| 0 <= j < k ==> utf16_len(#[trigger] s.take(j)) < at
}

/// The byte offset of UTF-16 position `at` in `s`: where the first character starting at or
/// past it starts, or the end; a negative position is the end too.
pub open spec fn unit_to_byte(s: Seq<char>, at: int) -> int {
    if at < 0 {
        utf8_len(s) as int
    } else {
        utf8_len(s.take(choose|k: int| first_at_unit(s, at, k))) as int
    }
}

/// There is one first character at or past a position.
pub proof fn lemma_first_at_unit_unique(s: Seq<char>, at: int, k1: int, k2: int)
    requires
        first_at_unit(s, at, k1),
        first_at_unit(s, at, k2),
    ensures
        k1 == k2,
{
    if k1 < k2 {
        assert(utf16_len(s.take(k1)) < at);
    } else if k2 < k1 {
        assert(utf16_len(s.take(k2)) < at);
    }
}

pub proof fn lemma_take_push(s: Seq<char>, i: int)
    requires
        0 <= i < s.len(),
    ensures
        s.take(i + 1) == s.take(i).push(s[i]),
        s.take(i + 1).drop_last() == s.take(i),
        s.take(i + 1).last() == s[i],
{
    assert(s.take(i + 1) =~= s.take(i).push(s[i]));
    assert(s.take(i + 1).drop_last() =~= s.take(i));
}

pub proof fn lemma_utf8_len_concat(a: Seq<char>, b: Seq<char>)
    ensures
        utf8_len(a + b) == utf8_len(a) + utf8_len(b),
        utf16_len(a + b) == utf16_len(a) + utf16_len(b),
    decreases b.len(),
{
    if b.len() == 0 {
        assert(a + b =~= a);
    } else {
        lemma_utf8_len_concat(a, b.drop_last());
        assert((a + b).drop_last() =~= a + b.drop_last());
        assert((a + b).last() == b.last());
    }
}

/// Lengths only grow along a prefix, and the UTF-8 one strictly.
pub proof fn lemma_prefix_len(s: Seq<char>, j: int, k: int)
    requires
        0 <= j <= k <= s.len(),
    ensures
        utf8_len(s.take(j)) + (k - j) <= utf8_len(s.take(k)),
        utf16_len(s.take(j)) + (k - j) <= utf16_len(s.take(k)),
        utf16_len(s.take(k)) - utf16_len(s.take(j)) <= utf8_len(s.take(k)) - utf8_len(s.take(j)),
    decreases k - j,
{
    if j < k {
        lemma_prefix_len(s, j, k - 1);
        lemma_take_push(s, k - 1);
    }
}

/// The widths are those of the UTF-8 encoding vstd gives a string's bytes.
pub proof fn lemma_utf8_len_encode(s: Seq<char>)
    ensures
        vstd::utf8::encode_utf8(s).len() == utf8_len(s),
    decreases s.len(),
{
    if s.len() > 0 {
        lemma_utf8_len_encode(s.drop_first());
        assert(s =~= seq![s[0]] + s.drop_first());
        lemma_utf8_len_concat(seq![s[0]], s.drop_first());
        assert(seq![s[0]].drop_last() =~= Seq::<char>::empty());
        reveal_with_fuel(utf8_len, 2);
        assert(utf8_len(seq![s[0]]) == utf8_width(s[0]));
        let v = s[0] as u32;
        vstd::utf8::char_is_scalar(s[0]);
        assert(vstd::utf8::encode_scalar(v).len() == utf8_width(s[0]));
    }
}

pub proof fn lemma_str_len(text: &str)
    ensures
        text.spec_bytes().len() == utf8_len(text@),
{
    lemma_utf8_len_encode(text@);
}

/// The length of `text` in bytes, as `str::len` gives it.
fn byte_len(text: &str) -> (n: usize)
    ensures
        n == utf8_len(text@),
{
    proof {
        lemma_str_len(text);
    }
    text.as_bytes().len()
}

/// Where a character starts in UTF-16 units leads back to where it starts in bytes: the two
/// ways of counting agree on every character boundary.
pub proof fn law_unit_byte_roundtrip(s: Seq<char>, k: int)
    requires
        0 <= k <= s.len(),
    ensures
        unit_to_byte(s, utf16_len(s.take(k)) as int) == utf8_len(s.take(k)),
        starts_char(s, k, utf8_len(s.take(k)) as int),
{
    let at = utf16_len(s.take(k)) as int;
    assert forall|j: int| 0 <= j < k implies utf16_len(#[trigger] s.take(j)) < at by {
        lemma_prefix_len(s, j, k);
    }
    assert(first_at_unit(s, at, k));
    let chosen = choose|i: int| first_at_unit(s, at, i);
    lemma_first_at_unit_unique(s, at, chosen, k);
}

/// How many bytes `c` takes in UTF-8, as `char::len_utf8` counts.
pub fn len_utf8(c: char) -> (n: usize)
    ensures
        n == utf8_width(c),
{
    let v = c as u32;
    if v < 0x80 {
        1
    } else if v < 0x800 {
        2
    } else if v < 0x10000 {
        3
    } else {
        4
    }
}

/// How many UTF-16 units `c` takes, as `char::len_utf16` counts.
pub fn len_utf16(c: char) -> (n: usize)
    ensures
        n == utf16_width(c),
{
    if (c as u32) < 0x10000 {
        1
    } else {
        2
    }
}

/// The characters of `text`, one by one.
pub fn chars_of(text: &str) -> (chars: Vec<char>)
    ensures
        chars@ == text@,
{
    broadcast use vstd::string::group_string_axioms;

    let mut chars: Vec<char> = Vec::new();
    for c in it: text.chars()
        invariant
            it.seq() == text@,
            chars@ == it.seq().take(it.index() as int),
    {
        proof {
            lemma_take_push(it.seq(), it.index() as int);
        }
        chars.push(c);
    }
    assert(chars@ =~= text@);
    chars
}

/// Where the UTF-16 position `at` falls in `text`, which Rust counts in bytes. A position
/// past the end, or a negative one, is the end.
pub fn byte_offset(text: &str, at: i32) -> (offset: usize)
    ensures
        at < 0 ==> offset == utf8_len(text@),
        at >= 0 ==> exists|k: int|
            first_at_unit(text@, at as int, k) && offset == utf8_len(#[trigger] text@.take(k)),
        offset == unit_to_byte(text@, at as int),
{
    let total = byte_len(text);
    if at < 0 {
        return total;
    }
    let chars = chars_of(text);
    let ghost s = text@;
    let mut units: usize = 0;
    let mut offset: usize = 0;
    let mut i: usize = 0;
    while i < chars.len()
        invariant
            s == text@,
            chars@ == s,
            0 <= at,
            0 <= i <= s.len(),
            units == utf16_len(s.take(i as int)),
            offset == utf8_len(s.take(i as int)),
            utf8_len(s) == total,
            forall|j: int| 0 <= j < i ==> utf16_len(#[trigger] s.take(j)) < at,
        decreases s.len() - i,
    {
        if units >= at as usize {
            assert(first_at_unit(s, at as int, i as int));
            proof {
                let k = choose|k: int| first_at_unit(s, at as int, k);
                lemma_first_at_unit_unique(s, at as int, k, i as int);
            }
            return offset;
        }
        proof {
            lemma_take_push(s, i as int);
            lemma_prefix_len(s, i + 1, s.len() as int);
            assert(s.take(s.len() as int) =~= s);
        }
        units = units + len_utf16(chars[i]);
        offset = offset + len_utf8(chars[i]);
        i = i + 1;
    }
    assert(s.take(s.len() as int) =~= s);
    assert(first_at_unit(s, at as int, s.len() as int));
    proof {
        let k = choose|k: int| first_at_unit(s, at as int, k);
        lemma_first_at_unit_unique(s, at as int, k, s.len() as int);
    }
    total
}

/// Where a byte offset into `text` stands, counted in UTF-16 units. The offset must fall
/// where a character starts, or at the end.
pub fn utf16_at(text: &str, byte: usize) -> (units: u32)
    requires
        is_boundary(text@, byte as int),
    ensures
        forall|k: int|
            starts_char(text@, k, byte as int) ==> units == utf16_len(#[trigger] text@.take(k)) as u32,
{
    let chars = chars_of(text);
    let ghost s = text@;
    let ghost k = choose|k: int| starts_char(s, k, byte as int);
    proof {
        lemma_str_len(text);
        assert forall|k2: int| starts_char(s, k2, byte as int) implies k2 == k by {
            if k2 < k {
                lemma_prefix_len(s, k2, k);
            } else if k < k2 {
                lemma_prefix_len(s, k, k2);
            }
        }
    }
    let mut count: usize = 0;
    let mut offset: usize = 0;
    let mut i: usize = 0;
    while offset < byte
        invariant
            s == text@,
            chars@ == s,
            starts_char(s, k, byte as int),
            0 <= i <= k,
            count == utf16_len(s.take(i as int)),
            offset == utf8_len(s.take(i as int)),
        decreases k - i,
    {
        proof {
            if i == k {
                assert(false);
            }
            lemma_take_push(s, i as int);
            lemma_prefix_len(s, i + 1, k);
            lemma_prefix_len(s, i as int, k);
            lemma_prefix_len(s, 0, i + 1);
            assert(s.take(0) =~= Seq::<char>::empty());
        }
        count = count + len_utf16(chars[i]);
        offset = offset + len_utf8(chars[i]);
        i = i + 1;
    }
    proof {
        if i < k {
            lemma_prefix_len(s, i + 1, k);
            lemma_take_push(s, i as int);
        }
    }
    count as u32
}

/// Where each character of `text` starts, counted in UTF-16 units, followed by where the
/// text ends. The checker counts in characters and Qt in UTF-16 units, and an emoji is one
/// of the first and two of the second.
pub fn utf16_offsets(text: &str) -> (offsets: Vec<u32>)
    requires
        utf16_len(text@) <= u32::MAX,
    ensures
        offsets.len() == text@.len() + 1,
        forall|i: int| 0 <= i <= text@.len() ==> offsets[i] == utf16_len(#[trigger] text@.take(i)),
{
    let chars = chars_of(text);
    let ghost s = text@;
    let mut offsets: Vec<u32> = Vec::new();
    let mut units: u32 = 0;
    let mut i: usize = 0;
    while i < chars.len()
        invariant
            s == text@,
            chars@ == s,
            utf16_len(s) <= u32::MAX,
            0 <= i <= s.len(),
            units == utf16_len(s.take(i as int)),
            offsets.len() == i,
            forall|j: int| 0 <= j < i ==> offsets[j] == utf16_len(#[trigger] s.take(j)),
        decreases s.len() - i,
    {
        offsets.push(units);
        proof {
            lemma_take_push(s, i as int);
            lemma_prefix_len(s, i + 1, s.len() as int);
            assert(s.take(s.len() as int) =~= s);
        }
        units = units + len_utf16(chars[i]) as u32;
        i = i + 1;
    }
    offsets.push(units);
    offsets
}

/// Whether `c` has the Unicode White_Space property, which is what `char::is_whitespace`
/// asks.
pub open spec fn white(c: char) -> bool {
    ||| '\t' <= c <= '\r'
    ||| c == ' '
    ||| c == '\u{85}'
    ||| c == '\u{A0}'
    ||| c == '\u{1680}'
    ||| '\u{2000}' <= c <= '\u{200A}'
    ||| c == '\u{2028}'
    ||| c == '\u{2029}'
    ||| c == '\u{202F}'
    ||| c == '\u{205F}'
    ||| c == '\u{3000}'
}

/// Every character of `s` is whitespace.
pub open spec fn all_white(s: Seq<char>) -> bool {
    forall|i: int| 0 <= i < s.len() ==> white(#[trigger] s[i])
}

/// Whether `c` is whitespace.
pub fn is_whitespace(c: char) -> (b: bool)
    ensures
        b == white(c),
{
    ('\t' <= c && c <= '\r') || c == ' ' || c == '\u{85}' || c == '\u{A0}' || c == '\u{1680}'
        || ('\u{2000}' <= c && c <= '\u{200A}') || c == '\u{2028}' || c == '\u{2029}'
        || c == '\u{202F}' || c == '\u{205F}' || c == '\u{3000}'
}

/// Whether every character of `chars[from..to]` is whitespace.
pub fn only_whitespace(chars: &Vec<char>, from: usize, to: usize) -> (b: bool)
    requires
        from <= to <= chars.len(),
    ensures
        b == all_white(chars@.subrange(from as int, to as int)),
{
    let mut i = from;
    while i < to
        invariant
            from <= i <= to <= chars.len(),
            all_white(chars@.subrange(from as int, i as int)),
        decreases to - i,
    {
        if !is_whitespace(chars[i]) {
            assert(chars@.subrange(from as int, to as int)[i - from] == chars[i as int]);
            return false;
        }
        i = i + 1;
        assert forall|j: int| 0 <= j < i - from implies white(
            #[trigger] chars@.subrange(from as int, i as int)[j],
        ) by {
            if j < i - 1 - from {
                assert(chars@.subrange(from as int, i as int)[j] == chars@.subrange(
                    from as int,
                    i - 1,
                )[j]);
            }
        }
    }
    true
}

} // verus!
