//! What the checker found in a block, and what the editor makes of it: which finding the
//! cursor is standing in, which findings stand in text that is not prose, the order they are
//! offered in, and the findings remembered for blocks already checked.

use vstd::prelude::*;
use vstd::string::StringExecFns;
use crate::markdown::{element_named, element_of, parse_pieces, parsed, Element, Event, Piece};
use crate::parse::{byte_starts, byte_table, char_at_byte};
use crate::text::{chars_of, starts_char, utf16_len};

verus! {

/// Something the checker found in a block: where it is, counted in the UTF-16 units Qt counts
/// a QString in; what is wrong with it, in a few words of Markdown; and what could stand in
/// its place, likeliest first. A misspelling and a turn of phrase are the same thing here;
/// only the message says which of the two it was.
#[derive(Clone, Debug, PartialEq, Eq)]
pub struct Lint {
    pub at: u32,
    pub len: u32,
    pub message: String,
    pub replacements: Vec<String>,
    /// The misspelled word itself, where that is what this is: the one the writer would be
    /// taking into their dictionary. Empty for a turn of phrase.
    pub word: String,
    /// Whether the replacements are still to be worked out. Asking the dictionary what a
    /// misspelled word should have been costs more than checking the block it is in, and
    /// only the one lint the cursor stands in is ever read.
    pub pending: bool,
}

/// A lint as the contracts read it.
pub struct LintView {
    pub at: u32,
    pub len: u32,
    pub message: Seq<char>,
    pub replacements: Seq<Seq<char>>,
    pub word: Seq<char>,
    pub pending: bool,
}

impl View for Lint {
    type V = LintView;

    open spec fn view(&self) -> LintView {
        LintView {
            at: self.at,
            len: self.len,
            message: self.message@,
            replacements: crate::parse::views(self.replacements@),
            word: self.word@,
            pending: self.pending,
        }
    }
}

/// Some lints as the contracts read them.
pub open spec fn lint_views(lints: Seq<Lint>) -> Seq<LintView> {
    lints.map_values(|l: Lint| l@)
}

/// A copy of some strings.
pub fn copy_strings(strings: &Vec<String>) -> (copy: Vec<String>)
    ensures
        crate::parse::views(copy@) == crate::parse::views(strings@),
        copy.len() == strings.len(),
{
    let mut copy: Vec<String> = Vec::new();
    let mut i: usize = 0;
    while i < strings.len()
        invariant
            0 <= i <= strings.len(),
            copy.len() == i,
            forall|k: int| 0 <= k < i ==> (#[trigger] copy@[k])@ == strings@[k]@,
        decreases strings.len() - i,
    {
        let next = strings[i].clone();
        copy.push(next);
        i = i + 1;
    }
    assert(crate::parse::views(copy@) =~= crate::parse::views(strings@));
    copy
}

/// A copy of a lint.
pub fn copy_lint(lint: &Lint) -> (copy: Lint)
    ensures
        copy@ == lint@,
{
    Lint {
        at: lint.at,
        len: lint.len,
        message: lint.message.clone(),
        replacements: copy_strings(&lint.replacements),
        word: lint.word.clone(),
        pending: lint.pending,
    }
}

/// A copy of some lints.
pub fn copy_lints(lints: &Vec<Lint>) -> (copy: Vec<Lint>)
    ensures
        lint_views(copy@) == lint_views(lints@),
{
    let mut copy: Vec<Lint> = Vec::new();
    let mut i: usize = 0;
    while i < lints.len()
        invariant
            0 <= i <= lints.len(),
            copy.len() == i,
            forall|k: int| 0 <= k < i ==> (#[trigger] copy@[k])@ == lints@[k]@,
        decreases lints.len() - i,
    {
        let next = copy_lint(&lints[i]);
        copy.push(next);
        i = i + 1;
    }
    assert(lint_views(copy@) =~= lint_views(lints@));
    copy
}

/// The cursor at UTF-16 position `cursor` stands in `lint`: inside it or at either end.
pub open spec fn covers(lint: Lint, cursor: int) -> bool {
    lint.at <= cursor <= lint.at + lint.len
}

/// Finding `i` is the one offered where the cursor stands: it covers the cursor, no finding
/// covering it is narrower, and every earlier one covering it is wider.
pub open spec fn narrowest(lints: Seq<Lint>, cursor: int, i: int) -> bool {
    &&& 0 <= i < lints.len()
    &&& covers(lints[i], cursor)
    &&& forall|j: int| 0 <= j < lints.len() && covers(#[trigger] lints[j], cursor) ==> lints[i].len <= lints[j].len
    &&& forall|j: int| 0 <= j < i && covers(#[trigger] lints[j], cursor) ==> lints[i].len < lints[j].len
}

/// What the checker makes of the place the cursor is standing in a block, given what it
/// found there. The narrowest finding wins where several overlap: it is the one that names
/// the words under the cursor. A negative cursor stands nowhere. Where the finding's
/// suggestions are still pending, the caller asks the dictionary for them.
pub fn at(checked: Vec<Lint>, cursor: i32) -> (found: Option<Lint>)
    ensures
        cursor < 0 ==> found is None,
        cursor >= 0 ==> match found {
            Some(lint) => exists|i: int| narrowest(checked@, cursor as int, i) && lint == checked@[i],
            None => forall|j: int| 0 <= j < checked@.len() ==> !covers(#[trigger] checked@[j], cursor as int),
        },
{
    if cursor < 0 {
        return None;
    }
    let c = cursor as u64;
    let mut best: Option<usize> = None;
    let mut i: usize = 0;
    while i < checked.len()
        invariant
            c == cursor as int,
            0 <= i <= checked.len(),
            match best {
                Some(b) => b < i && covers(checked@[b as int], c as int)
                    && (forall|j: int| 0 <= j < i && covers(#[trigger] checked@[j], c as int) ==> checked@[b as int].len <= checked@[j].len)
                    && (forall|j: int| 0 <= j < b && covers(#[trigger] checked@[j], c as int) ==> checked@[b as int].len < checked@[j].len),
                None => forall|j: int| 0 <= j < i ==> !covers(#[trigger] checked@[j], c as int),
            },
        decreases checked.len() - i,
    {
        let lint = &checked[i];
        if c >= lint.at as u64 && c <= lint.at as u64 + lint.len as u64 {
            match best {
                Some(b) => {
                    if lint.len < checked[b].len {
                        best = Some(i);
                    }
                },
                None => {
                    best = Some(i);
                },
            }
        }
        i = i + 1;
    }
    match best {
        Some(b) => {
            let mut checked = checked;
            Some(checked.remove(b))
        },
        None => None,
    }
}

/// Whether a lint has any of itself inside `part`.
pub open spec fn overlapping(lint: Lint, part: (u32, u32)) -> bool {
    lint.at < part.1 && part.0 < lint.at + lint.len
}

/// Whether a lint has any of itself inside `part`.
pub fn overlaps(lint: &Lint, part: (u32, u32)) -> (b: bool)
    ensures
        b == overlapping(*lint, part),
{
    (lint.at as u64) < (part.1 as u64) && (part.0 as u64) < lint.at as u64 + lint.len as u64
}

/// Punctuation that only ever joins one thing to another. A word with one of these hard
/// against it is part of `snake_case`, a path or an address rather than a piece of prose.
/// The full stop that ends a sentence joins nothing to anything, and the word in front of it
/// is checked like any other.
pub open spec fn joins(c: char) -> bool {
    c == '.' || c == '/' || c == ':' || c == '@' || c == '_'
}

/// Whether `c` joins one thing to another.
pub fn is_join(c: char) -> (b: bool)
    ensures
        b == joins(c),
{
    c == '.' || c == '/' || c == ':' || c == '@' || c == '_'
}

/// What `char::is_numeric` says of `c`: whether it has a Unicode numeric general category.
pub uninterp spec fn numeric(c: char) -> bool;

/// What `char::is_alphanumeric` says of `c`: whether it is alphabetic or numeric in Unicode.
pub uninterp spec fn alphanumeric(c: char) -> bool;

/// `char::is_numeric`. The Unicode tables it reads are not restated: its answer is named
/// [`numeric`].
#[verifier::external_body]
fn is_numeric(c: char) -> (b: bool)
    ensures
        b == numeric(c),
{
    c.is_numeric()
}

/// `char::is_alphanumeric`. The Unicode tables it reads are not restated: its answer is
/// named [`alphanumeric`].
#[verifier::external_body]
fn is_alphanumeric(c: char) -> (b: bool)
    ensures
        b == alphanumeric(c),
{
    c.is_alphanumeric()
}

/// Whether a word the checker found is one to ask the dictionary about. A single letter is
/// never worth flagging, and anything with a digit in it is a name for something rather
/// than a word: `h1`, `3rd`, `utf8`. What sits either side of it counts too: a joining mark
/// before it, or one after it with more of the name beyond, makes it part of a name.
pub open spec fn worth_checking(characters: Seq<char>, start: int, end: int) -> bool {
    &&& end - start >= 2
    &&& forall|i: int| start <= i < end ==> !numeric(#[trigger] characters[i]) && !joins(characters[i])
    &&& !(start >= 1 && joins(characters[start - 1]))
    &&& !(end + 1 < characters.len() && joins(characters[end]) && alphanumeric(characters[end + 1]))
}

/// Whether the word `characters[start..end]` is one to ask the dictionary about.
pub fn checkable(start: usize, end: usize, characters: &Vec<char>) -> (b: bool)
    requires
        start <= end <= characters.len(),
    ensures
        b == worth_checking(characters@, start as int, end as int),
{
    if end - start < 2 {
        return false;
    }
    let mut i = start;
    while i < end
        invariant
            start <= i <= end <= characters.len(),
            forall|k: int| start <= k < i ==> !numeric(#[trigger] characters@[k]) && !joins(characters@[k]),
        decreases end - i,
    {
        if is_numeric(characters[i]) || is_join(characters[i]) {
            return false;
        }
        i = i + 1;
    }
    if start >= 1 && is_join(characters[start - 1]) {
        return false;
    }
    !(characters.len() > 0 && end < characters.len() - 1 && is_join(characters[end]) && is_alphanumeric(
        characters[end + 1],
    ))
}

/// What a block is checked as: its text, and whether it is Markdown.
pub struct CheckKey {
    pub text: String,
    pub markdown: bool,
}

/// What was found in one block.
pub struct Checked {
    pub key: CheckKey,
    pub found: Vec<Lint>,
}

/// The most blocks whose findings are kept.
pub const CACHE_LIMIT: usize = 256;

/// Findings kept for blocks already checked, oldest first, and the blocks waiting to be
/// checked.
pub struct CheckCache {
    found: Vec<Checked>,
    pending: Vec<CheckKey>,
}

/// A key as the contracts read it.
pub open spec fn key_view(key: CheckKey) -> (Seq<char>, bool) {
    (key.text@, key.markdown)
}

/// What the cache holds, as the contracts read it.
pub struct CacheView {
    pub found: Seq<((Seq<char>, bool), Seq<LintView>)>,
    pub pending: Seq<(Seq<char>, bool)>,
}

/// Each key appears once.
pub open spec fn distinct<A, B>(entries: Seq<(A, B)>) -> bool {
    forall|i: int, j: int| 0 <= i < j < entries.len() ==> #[trigger] entries[i].0 != #[trigger] entries[j].0
}

/// Each item appears once.
pub open spec fn unique<A>(items: Seq<A>) -> bool {
    forall|i: int, j: int| 0 <= i < j < items.len() ==> #[trigger] items[i] != #[trigger] items[j]
}

/// What is remembered for `key`, if anything.
pub open spec fn lookup(found: Seq<((Seq<char>, bool), Seq<LintView>)>, key: (Seq<char>, bool)) -> Option<Seq<LintView>> {
    if exists|i: int| 0 <= i < found.len() && #[trigger] found[i].0 == key {
        Some(found[choose|i: int| 0 <= i < found.len() && #[trigger] found[i].0 == key].1)
    } else {
        None
    }
}

/// `found` with what was found for `key` stored: in place where the key is already known,
/// at the end where it is not, and the oldest dropped past [`CACHE_LIMIT`].
pub open spec fn stored(found: Seq<((Seq<char>, bool), Seq<LintView>)>, key: (Seq<char>, bool), lints: Seq<LintView>) -> Seq<((Seq<char>, bool), Seq<LintView>)> {
    let all = if exists|i: int| 0 <= i < found.len() && #[trigger] found[i].0 == key {
        found.update(choose|i: int| 0 <= i < found.len() && #[trigger] found[i].0 == key, (key, lints))
    } else {
        found.push((key, lints))
    };
    if all.len() > CACHE_LIMIT {
        all.skip(all.len() - CACHE_LIMIT)
    } else {
        all
    }
}

impl View for CheckCache {
    type V = CacheView;

    closed spec fn view(&self) -> CacheView {
        CacheView {
            found: self.found@.map_values(|c: Checked| (key_view(c.key), lint_views(c.found@))),
            pending: self.pending@.map_values(|k: CheckKey| key_view(k)),
        }
    }
}

impl CheckCache {
    /// The cache holds each block once, waits on each once, and holds no more than
    /// [`CACHE_LIMIT`] blocks.
    pub open spec fn wf(&self) -> bool {
        &&& distinct(self@.found)
        &&& unique(self@.pending)
        &&& self@.found.len() <= CACHE_LIMIT
    }

    /// Nothing found and nothing waiting.
    pub fn new() -> (cache: CheckCache)
        ensures
            cache.wf(),
            cache@.found.len() == 0,
            cache@.pending.len() == 0,
    {
        let cache = CheckCache { found: Vec::new(), pending: Vec::new() };
        assert(cache@.found =~= Seq::empty());
        assert(cache@.pending =~= Seq::empty());
        cache
    }

    /// Where `key` is remembered, if it is.
    fn position(&self, key: &CheckKey) -> (index: Option<usize>)
        requires
            self.wf(),
        ensures
            match index {
                Some(i) => i < self@.found.len() && self@.found[i as int].0 == key_view(*key),
                None => forall|i: int| 0 <= i < self@.found.len() ==> #[trigger] self@.found[i].0 != key_view(*key),
            },
    {
        let mut i: usize = 0;
        while i < self.found.len()
            invariant
                0 <= i <= self.found.len(),
                self@.found.len() == self.found.len(),
                forall|j: int| 0 <= j < i ==> #[trigger] self@.found[j].0 != key_view(*key),
            decreases self.found.len() - i,
        {
            let entry = &self.found[i];
            assert(self@.found[i as int].0 == key_view(entry.key));
            if entry.key.markdown == key.markdown && entry.key.text == key.text {
                return Some(i);
            }
            i = i + 1;
        }
        None
    }

    /// What was found in a block already checked.
    pub fn found(&self, key: &CheckKey) -> (lints: Option<Vec<Lint>>)
        requires
            self.wf(),
        ensures
            match lookup(self@.found, key_view(*key)) {
                Some(l) => lints matches Some(v) && lint_views(v@) == l,
                None => lints is None,
            },
    {
        match self.position(key) {
            Some(i) => {
                proof {
                    let j = choose|j: int| 0 <= j < self@.found.len() && #[trigger] self@.found[j].0 == key_view(*key);
                    if j != i {
                        if j < i {
                            assert(self@.found[j].0 != self@.found[i as int].0);
                        } else {
                            assert(self@.found[i as int].0 != self@.found[j].0);
                        }
                    }
                }
                Some(copy_lints(&self.found[i].found))
            },
            None => None,
        }
    }

    /// Wait on a block, unless it is already waited on. Whether it was not.
    pub fn schedule(&mut self, key: CheckKey) -> (fresh: bool)
        requires
            old(self).wf(),
        ensures
            final(self).wf(),
            final(self)@.found == old(self)@.found,
            fresh == !old(self)@.pending.contains(key_view(key)),
            fresh ==> final(self)@.pending == old(self)@.pending.push(key_view(key)),
            !fresh ==> final(self)@.pending == old(self)@.pending,
    {
        let mut i: usize = 0;
        while i < self.pending.len()
            invariant
                self.wf(),
                self@ == old(self)@,
                0 <= i <= self.pending.len(),
                self@.pending.len() == self.pending.len(),
                forall|j: int| 0 <= j < i ==> #[trigger] self@.pending[j] != key_view(key),
            decreases self.pending.len() - i,
        {
            assert(self@.pending[i as int] == key_view(self.pending[i as int]));
            if self.pending[i].markdown == key.markdown && self.pending[i].text == key.text {
                assert(self@.pending.contains(key_view(key)));
                return false;
            }
            i = i + 1;
        }
        let ghost before = self@;
        self.pending.push(key);
        assert(self@.pending =~= before.pending.push(key_view(key)));
        assert(self@.found =~= before.found);
        true
    }

    /// Stop waiting on a block.
    fn unwait(&mut self, key: &CheckKey)
        requires
            old(self).wf(),
        ensures
            final(self).wf(),
            final(self)@.found == old(self)@.found,
            !final(self)@.pending.contains(key_view(*key)),
            forall|k: (Seq<char>, bool)| k != key_view(*key) ==> (#[trigger] final(self)@.pending.contains(k)
                <==> old(self)@.pending.contains(k)),
    {
        let ghost kv = key_view(*key);
        let mut i: usize = 0;
        while i < self.pending.len()
            invariant
                self.wf(),
                self@ == old(self)@,
                0 <= i <= self.pending.len(),
                self@.pending.len() == self.pending.len(),
                forall|j: int| 0 <= j < i ==> #[trigger] self@.pending[j] != kv,
                kv == key_view(*key),
            decreases self.pending.len() - i,
        {
            assert(self@.pending[i as int] == key_view(self.pending[i as int]));
            if self.pending[i].markdown == key.markdown && self.pending[i].text == key.text {
                let ghost before = self@;
                self.pending.remove(i);
                assert(self@.pending =~= before.pending.remove(i as int));
                assert(self@.found =~= before.found);
                proof {
                    assert forall|k: (Seq<char>, bool)| k != kv implies (#[trigger] self@.pending.contains(k)
                        <==> before.pending.contains(k)) by {
                        if before.pending.contains(k) {
                            let j = choose|j: int| 0 <= j < before.pending.len() && before.pending[j] == k;
                            if j < i {
                                assert(self@.pending[j] == k);
                            } else {
                                assert(self@.pending[j - 1] == k);
                            }
                        }
                    }
                    if self@.pending.contains(kv) {
                        let j = choose|j: int| 0 <= j < self@.pending.len() && self@.pending[j] == kv;
                        if j < i {
                            assert(before.pending[j] == kv);
                        } else {
                            assert(before.pending[j + 1] == kv);
                            assert(before.pending[i as int] != before.pending[j + 1]);
                        }
                    }
                    assert forall|x: int, y: int| 0 <= x < y < self@.pending.len() implies #[trigger] self@.pending[x]
                        != #[trigger] self@.pending[y] by {
                        let bx = if x < i { x } else { x + 1 };
                        let by = if y < i { y } else { y + 1 };
                        assert(before.pending[bx] != before.pending[by]);
                    }
                }
                return;
            }
            i = i + 1;
        }
    }

    /// Remember what was found in a block: it is no longer waited on, its findings replace
    /// any kept for it, and past [`CACHE_LIMIT`] the oldest are forgotten.
    pub fn remember_check(&mut self, key: CheckKey, found: Vec<Lint>)
        requires
            old(self).wf(),
        ensures
            final(self).wf(),
            final(self)@.found == stored(old(self)@.found, key_view(key), lint_views(found@)),
            !final(self)@.pending.contains(key_view(key)),
            forall|k: (Seq<char>, bool)| k != key_view(key) ==> (#[trigger] final(self)@.pending.contains(k)
                <==> old(self)@.pending.contains(k)),
    {
        let ghost kv = key_view(key);
        let ghost lv = lint_views(found@);
        self.unwait(&key);
        let ghost before = self@;
        let ghost all = if exists|i: int| 0 <= i < before.found.len() && #[trigger] before.found[i].0 == kv {
            before.found.update(choose|i: int| 0 <= i < before.found.len() && #[trigger] before.found[i].0 == kv, (kv, lv))
        } else {
            before.found.push((kv, lv))
        };
        match self.position(&key) {
            Some(i) => {
                proof {
                    let j = choose|j: int| 0 <= j < before.found.len() && #[trigger] before.found[j].0 == kv;
                    if j != i {
                        if j < i {
                            assert(before.found[j].0 != before.found[i as int].0);
                        } else {
                            assert(before.found[i as int].0 != before.found[j].0);
                        }
                    }
                }
                self.found.set(i, Checked { key, found });
                assert(self@.found =~= all);
                assert forall|x: int, y: int| 0 <= x < y < self@.found.len() implies #[trigger] self@.found[x].0
                    != #[trigger] self@.found[y].0 by {
                    assert(before.found[x].0 != before.found[y].0);
                }
            },
            None => {
                self.found.push(Checked { key, found });
                assert(self@.found =~= all);
                assert forall|x: int, y: int| 0 <= x < y < self@.found.len() implies #[trigger] self@.found[x].0
                    != #[trigger] self@.found[y].0 by {
                    if y < before.found.len() {
                        assert(before.found[x].0 != before.found[y].0);
                    }
                }
            },
        }
        assert(self@.pending == before.pending);
        while self.found.len() > CACHE_LIMIT
            invariant
                self@.pending == before.pending,
                distinct(self@.found),
                self@.found.len() == self.found.len(),
                self@.found.len() <= all.len(),
                self@.found == all.skip(all.len() - self@.found.len()),
                all.len() <= CACHE_LIMIT + 1,
                all.len() > CACHE_LIMIT ==> self@.found.len() >= CACHE_LIMIT,
                all.len() <= CACHE_LIMIT ==> self@.found.len() == all.len(),
            decreases self.found.len(),
        {
            let ghost was = self@;
            self.found.remove(0);
            assert(self@.found =~= was.found.skip(1));
            assert(self@.pending =~= was.pending);
            assert(self@.found =~= all.skip(all.len() - self@.found.len()));
            assert forall|x: int, y: int| 0 <= x < y < self@.found.len() implies #[trigger] self@.found[x].0
                != #[trigger] self@.found[y].0 by {
                assert(was.found[x + 1].0 != was.found[y + 1].0);
            }
        }
        proof {
            assert(before.found == old(self)@.found);
            assert(stored(old(self)@.found, kv, lv) == (if all.len() > CACHE_LIMIT {
                all.skip(all.len() - CACHE_LIMIT)
            } else {
                all
            }));
            if all.len() <= CACHE_LIMIT {
                assert(all.skip(0) =~= all);
            } else {
                assert(self@.found.len() == CACHE_LIMIT);
            }
            assert(self@.found == stored(old(self)@.found, kv, lv));
        }
    }

    /// Forget everything found and everything waited on.
    pub fn forget(&mut self)
        ensures
            final(self).wf(),
            final(self)@.found.len() == 0,
            final(self)@.pending.len() == 0,
    {
        self.found.clear();
        self.pending.clear();
        assert(self@.found =~= Seq::empty());
        assert(self@.pending =~= Seq::empty());
    }
}

/// What is remembered for a block is what was last found in it: storing findings and then
/// looking the block up gives them back, whatever else the cache held.
pub proof fn law_remembered_is_found(found: Seq<((Seq<char>, bool), Seq<LintView>)>, key: (Seq<char>, bool), lints: Seq<LintView>)
    requires
        distinct(found),
        found.len() <= CACHE_LIMIT,
    ensures
        lookup(stored(found, key, lints), key) == Some(lints),
        stored(found, key, lints).len() <= CACHE_LIMIT,
        distinct(stored(found, key, lints)),
{
    let all = if exists|i: int| 0 <= i < found.len() && #[trigger] found[i].0 == key {
        found.update(choose|i: int| 0 <= i < found.len() && #[trigger] found[i].0 == key, (key, lints))
    } else {
        found.push((key, lints))
    };
    let at = if exists|i: int| 0 <= i < found.len() && #[trigger] found[i].0 == key {
        choose|i: int| 0 <= i < found.len() && #[trigger] found[i].0 == key
    } else {
        found.len() as int
    };
    assert(all[at] == (key, lints));
    assert forall|x: int, y: int| 0 <= x < y < all.len() implies #[trigger] all[x].0 != #[trigger] all[y].0 by {
        if y < found.len() {
            assert(found[x].0 != found[y].0);
        }
    }
    let kept = stored(found, key, lints);
    let drop = if all.len() > CACHE_LIMIT { all.len() - CACHE_LIMIT } else { 0 };
    assert(kept == all.skip(drop));
    assert(at >= drop);
    assert(kept[at - drop] == (key, lints));
    assert forall|x: int, y: int| 0 <= x < y < kept.len() implies #[trigger] kept[x].0 != #[trigger] kept[y].0 by {
        assert(all[x + drop].0 != all[y + drop].0);
    }
    let j = choose|j: int| 0 <= j < kept.len() && #[trigger] kept[j].0 == key;
    if j != at - drop {
        if j < at - drop {
            assert(kept[j].0 != kept[at - drop].0);
        } else {
            assert(kept[at - drop].0 != kept[j].0);
        }
    }
}

/// The checker as the editor sees it: whether the writer wants to hear from it, whether it
/// has finished loading, what it has found, and a generation that changes whenever what it
/// would say may have changed (which is what has the blocks on screen look again).
pub struct Checker {
    /// The writer's switch. On to begin with: that is what the checker is there for.
    pub on: bool,
    /// Whether its rules have been built.
    pub loaded: bool,
    pub generation: u64,
    pub cache: CheckCache,
}

/// A fresh checker: switched on, not yet loaded, nothing found.
pub fn new_checker() -> (checker: Checker)
    ensures
        checker.on,
        !checker.loaded,
        checker.generation == 0,
        checker.cache.wf(),
        checker.cache@.found.len() == 0,
        checker.cache@.pending.len() == 0,
{
    Checker { on: true, loaded: false, generation: 0, cache: CheckCache::new() }
}

/// Whether the writer wants to hear from the checker at all.
pub fn checking(checker: &Checker) -> (on: bool)
    ensures
        on == checker.on,
{
    checker.on
}

/// Turn the checker off, or on again. What was found while it was on is kept (the blocks
/// are the same blocks), so putting it back on marks them again without waiting. The
/// generation moves either way.
pub fn set_checking(checker: &mut Checker, on: bool)
    ensures
        final(checker).on == on,
        final(checker).loaded == old(checker).loaded,
        final(checker).generation == old(checker).generation.wrapping_add(1),
        final(checker).cache == old(checker).cache,
{
    checker.on = on;
    checker.generation = checker.generation.wrapping_add(1);
}

/// Changes whenever cached findings may have changed.
pub fn checker_generation(checker: &Checker) -> (generation: u64)
    ensures
        generation == checker.generation,
{
    checker.generation
}

/// The checker has finished building its rules.
pub fn loaded(checker: &mut Checker)
    ensures
        final(checker).loaded,
        final(checker).on == old(checker).on,
        final(checker).generation == old(checker).generation.wrapping_add(1),
        final(checker).cache == old(checker).cache,
{
    checker.loaded = true;
    checker.generation = checker.generation.wrapping_add(1);
}

/// Findings already worked out for a block. A miss asks for the block to be checked, and
/// says whether it has to be sent to the worker (it has not already been sent); either way
/// nothing is found yet. A checker not loaded, without its dictionary, or switched off
/// finds nothing and asks for nothing.
pub fn request_check(checker: &mut Checker, text: &str, markdown: bool, spelling_ready: bool) -> (answer: (Vec<Lint>, bool))
    requires
        old(checker).cache.wf(),
    ensures
        final(checker).cache.wf(),
        final(checker).on == old(checker).on,
        final(checker).loaded == old(checker).loaded,
        final(checker).generation == old(checker).generation,
        final(checker).cache@.found == old(checker).cache@.found,
        !(old(checker).loaded && spelling_ready && old(checker).on) ==> answer.0@.len() == 0 && !answer.1
            && final(checker).cache@ == old(checker).cache@,
        old(checker).loaded && spelling_ready && old(checker).on ==> match lookup(old(checker).cache@.found, (text@, markdown)) {
            Some(l) => lint_views(answer.0@) == l && !answer.1 && final(checker).cache@ == old(checker).cache@,
            None => answer.0@.len() == 0 && answer.1 == !old(checker).cache@.pending.contains((text@, markdown))
                && (answer.1 ==> final(checker).cache@.pending == old(checker).cache@.pending.push((text@, markdown)))
                && (!answer.1 ==> final(checker).cache@.pending == old(checker).cache@.pending),
        },
{
    if !(checker.loaded && spelling_ready && checker.on) {
        return (Vec::new(), false);
    }
    broadcast use vstd::string::group_string_axioms;

    let key = CheckKey { text: text.to_string(), markdown };
    match checker.cache.found(&key) {
        Some(found) => (found, false),
        None => {
            let fresh = checker.cache.schedule(key);
            (Vec::new(), fresh)
        },
    }
}

/// A word has been taken into the writer's own dictionary: what was made of the blocks
/// before is forgotten, and the blocks are asked about again.
pub fn learn(checker: &mut Checker)
    ensures
        final(checker).on == old(checker).on,
        final(checker).loaded == old(checker).loaded,
        old(checker).loaded ==> final(checker).cache.wf() && final(checker).cache@.found.len() == 0
            && final(checker).cache@.pending.len() == 0 && final(checker).generation == old(checker).generation.wrapping_add(1),
        !old(checker).loaded ==> final(checker).cache == old(checker).cache && final(checker).generation == old(checker).generation,
{
    if checker.loaded {
        checker.cache.forget();
        checker.generation = checker.generation.wrapping_add(1);
    }
}

/// The worker has checked a block: remember what it found, and move the generation so the
/// blocks on screen look again.
pub fn finish_check(checker: &mut Checker, key: CheckKey, found: Vec<Lint>)
    requires
        old(checker).cache.wf(),
    ensures
        final(checker).cache.wf(),
        final(checker).cache@.found == stored(old(checker).cache@.found, key_view(key), lint_views(found@)),
        !final(checker).cache@.pending.contains(key_view(key)),
        final(checker).generation == old(checker).generation.wrapping_add(1),
        final(checker).on == old(checker).on,
        final(checker).loaded == old(checker).loaded,
{
    checker.cache.remember_check(key, found);
    checker.generation = checker.generation.wrapping_add(1);
}

/// Whether an event stands for text the checker has no business in: code, links, tables.
pub open spec fn unchecked_event(event: Event) -> bool {
    match event {
        Event::Code => true,
        Event::Start(name) => {
            let element = element_named(name@);
            element == Element::CodeBlock || element == Element::Link || element == Element::Table
        },
        _ => false,
    }
}

/// UTF-16 position of byte `b` of `s`, if a character starts there.
pub open spec fn unit_of_byte(s: Seq<char>, b: int) -> Option<u32> {
    match char_at_byte(s, b) {
        Some(k) => Some(utf16_len(s.take(k)) as u32),
        None => None,
    }
}

/// The parts of a block the checker has no business in, in UTF-16 units, from its events.
/// `None` where such a part's ends do not fall where characters start.
pub open spec fn left_alone_in(s: Seq<char>, pieces: Seq<Piece>) -> Option<Seq<(u32, u32)>>
    decreases pieces.len(),
{
    if pieces.len() == 0 {
        Some(Seq::empty())
    } else {
        match left_alone_in(s, pieces.drop_last()) {
            None => None,
            Some(parts) => {
                let p = pieces.last();
                if !unchecked_event(p.event) {
                    Some(parts)
                } else {
                    match (unit_of_byte(s, p.start as int), unit_of_byte(s, p.end as int)) {
                        (Some(a), Some(b)) => Some(parts.push((a, b))),
                        _ => None,
                    }
                }
            },
        }
    }
}

/// The UTF-16 position of each character of `chars`, and of its end, without a bound on
/// how far they go.
fn unit_table(text: &str, chars: &Vec<char>) -> (units: Vec<usize>)
    requires
        chars@ == text@,
    ensures
        units.len() == chars.len() + 1,
        forall|k: int| 0 <= k <= chars.len() ==> units[k] == utf16_len(#[trigger] chars@.take(k)),
{
    let ghost s = chars@;
    proof {
        crate::text::lemma_str_len(text);
    }
    let total = text.as_bytes().len();
    let mut units: Vec<usize> = Vec::new();
    let mut count: usize = 0;
    let mut i: usize = 0;
    while i < chars.len()
        invariant
            s == chars@,
            total == crate::text::utf8_len(s),
            0 <= i <= s.len(),
            units.len() == i,
            count == utf16_len(s.take(i as int)),
            forall|k: int| 0 <= k < i ==> units[k] == utf16_len(#[trigger] s.take(k)),
        decreases s.len() - i,
    {
        units.push(count);
        proof {
            crate::text::lemma_take_push(s, i as int);
            crate::text::lemma_prefix_len(s, 0, i + 1);
            crate::text::lemma_prefix_len(s, i + 1, s.len() as int);
            assert(s.take(0) =~= Seq::<char>::empty());
            assert(s.take(s.len() as int) =~= s);
        }
        count = count + crate::text::len_utf16(chars[i]);
        i = i + 1;
    }
    units.push(count);
    proof {
        assert forall|k: int| 0 <= k <= s.len() implies units@[k] == utf16_len(#[trigger] s.take(k)) by {
            if k == s.len() {
                assert(s.take(k) =~= s.take(i as int));
            }
        }
    }
    units
}

/// The parts of a block the checker has no business in, from its events: code, links and
/// tables. None of it is prose (it is a name, an address, a column of figures), and a
/// writer who has to spell it that way cannot take the advice anyway.
pub fn left_alone_from(text: &str, pieces: &Vec<Piece>) -> (parts: Option<Vec<(u32, u32)>>)
    ensures
        match left_alone_in(text@, pieces@) {
            Some(p) => parts matches Some(v) && v@ == p,
            None => parts is None,
        },
{
    let chars = chars_of(text);
    let starts = byte_starts(text, &chars);
    let units = unit_table(text, &chars);
    let ghost s = text@;
    let mut parts: Vec<(u32, u32)> = Vec::new();
    let mut i: usize = 0;
    while i < pieces.len()
        invariant
            s == text@,
            chars@ == s,
            byte_table(s, starts@),
            units.len() == s.len() + 1,
            forall|k: int| 0 <= k <= s.len() ==> units[k] == utf16_len(#[trigger] s.take(k)),
            0 <= i <= pieces.len(),
            left_alone_in(s, pieces@.take(i as int)) == Some(parts@),
        decreases pieces.len() - i,
    {
        proof {
            assert(pieces@.take(i + 1).drop_last() =~= pieces@.take(i as int));
            assert(pieces@.take(i + 1).last() == pieces@[i as int]);
        }
        let piece = &pieces[i];
        let unchecked = match &piece.event {
            Event::Code => true,
            Event::Start(name) => {
                let element = element_of(name);
                element == Element::CodeBlock || element == Element::Link || element == Element::Table
            },
            _ => false,
        };
        if unchecked {
            let a = crate::parse::char_at(&starts, piece.start, Ghost(s));
            let b = crate::parse::char_at(&starts, piece.end, Ghost(s));
            match (a, b) {
                (Some(a), Some(b)) => {
                    parts.push((units[a] as u32, units[b] as u32));
                },
                _ => {
                    proof {
                        lemma_left_alone_fails(s, pieces@, i + 1);
                    }
                    return None;
                },
            }
        }
        i = i + 1;
    }
    proof {
        assert(pieces@.take(pieces@.len() as int) =~= pieces@);
    }
    Some(parts)
}

/// Once a part cannot be counted, no longer list of events can be.
proof fn lemma_left_alone_fails(s: Seq<char>, pieces: Seq<Piece>, j: int)
    requires
        0 <= j <= pieces.len(),
        left_alone_in(s, pieces.take(j)) is None,
    ensures
        left_alone_in(s, pieces) is None,
    decreases pieces.len() - j,
{
    if j < pieces.len() {
        assert(pieces.take(j + 1).drop_last() =~= pieces.take(j));
        lemma_left_alone_fails(s, pieces, j + 1);
    } else {
        assert(pieces.take(j) =~= pieces);
    }
}

/// The parts of a block the checker has no business in. `None` where the parser reported a
/// range that does not fall where characters start.
pub fn left_alone(text: &str) -> (parts: Option<Vec<(u32, u32)>>)
    ensures
        match left_alone_in(text@, parsed(text@)) {
            Some(p) => parts matches Some(v) && v@ == p,
            None => parts is None,
        },
{
    let pieces = parse_pieces(text);
    left_alone_from(text, &pieces)
}

/// Whether a lint is kept: it overlaps none of the parts left alone.
pub open spec fn clear_of(lint: Lint, parts: Seq<(u32, u32)>) -> bool {
    forall|i: int| 0 <= i < parts.len() ==> !overlapping(lint, #[trigger] parts[i])
}

/// Lint `a` comes no later than lint `b`: it starts earlier, or at the same place and is no
/// longer.
pub open spec fn no_later(a: Lint, b: Lint) -> bool {
    a.at < b.at || (a.at == b.at && a.len <= b.len)
}

/// `sorted` with `x` put after every lint that comes no later than it.
pub open spec fn insert_lint(sorted: Seq<Lint>, x: Lint) -> Seq<Lint>
    decreases sorted.len(),
{
    if sorted.len() == 0 {
        seq![x]
    } else if no_later(sorted.last(), x) {
        sorted.push(x)
    } else {
        insert_lint(sorted.drop_last(), x).push(sorted.last())
    }
}

/// The lints in reading order, by where they start and then how long they are, lints that
/// tie kept in the order they came in; those that overlap a part left alone dropped.
pub open spec fn tidied(lints: Seq<Lint>, parts: Seq<(u32, u32)>) -> Seq<Lint>
    decreases lints.len(),
{
    if lints.len() == 0 {
        Seq::empty()
    } else if clear_of(lints.last(), parts) {
        insert_lint(tidied(lints.drop_last(), parts), lints.last())
    } else {
        tidied(lints.drop_last(), parts)
    }
}

proof fn lemma_insert_lint_at(sorted: Seq<Lint>, x: Lint, p: int)
    requires
        0 <= p <= sorted.len(),
        forall|j: int| p <= j < sorted.len() ==> !no_later(#[trigger] sorted[j], x),
        p == 0 || no_later(sorted[p - 1], x),
    ensures
        insert_lint(sorted, x) == sorted.insert(p, x),
    decreases sorted.len(),
{
    if sorted.len() == 0 {
        assert(sorted.insert(p, x) =~= seq![x]);
    } else if no_later(sorted.last(), x) {
        assert(sorted.insert(p, x) =~= sorted.push(x));
    } else {
        lemma_insert_lint_at(sorted.drop_last(), x, p);
        assert(sorted.insert(p, x) =~= sorted.drop_last().insert(p, x).push(sorted.last()));
    }
}

/// The lints in reading order, those standing in a part left alone dropped: what the editor
/// offers of a block.
pub fn tidy(found: Vec<Lint>, parts: &Vec<(u32, u32)>) -> (lints: Vec<Lint>)
    ensures
        lints@ == tidied(found@, parts@),
{
    let ghost all = found@;
    let count = found.len();
    let mut found = found;
    let mut sorted: Vec<Lint> = Vec::new();
    let mut i: usize = 0;
    while found.len() > 0
        invariant
            found@ == all.skip(i as int),
            i <= all.len(),
            all.len() == count,
            sorted@ == tidied(all.take(i as int), parts@),
        decreases found.len(),
    {
        assert(i < all.len());
        let lint = found.remove(0);
        proof {
            assert(all.take(i + 1).drop_last() =~= all.take(i as int));
            assert(all.take(i + 1).last() == lint);
            assert(found@ =~= all.skip(i + 1));
        }
        let mut clear = true;
        let mut k: usize = 0;
        while k < parts.len()
            invariant
                0 <= k <= parts.len(),
                clear == (forall|j: int| 0 <= j < k ==> !overlapping(lint, #[trigger] parts@[j])),
            decreases parts.len() - k,
        {
            if overlaps(&lint, parts[k]) {
                clear = false;
            }
            k = k + 1;
        }
        if clear {
            let mut p = sorted.len();
            while p > 0 && !((sorted[p - 1].at < lint.at) || (sorted[p - 1].at == lint.at && sorted[p - 1].len <= lint.len))
                invariant
                    0 <= p <= sorted.len(),
                    forall|j: int| p <= j < sorted.len() ==> !no_later(#[trigger] sorted@[j], lint),
                decreases p,
            {
                p = p - 1;
            }
            proof {
                lemma_insert_lint_at(sorted@, lint, p as int);
            }
            sorted.insert(p, lint);
        }
        i = i + 1;
    }
    proof {
        assert(all.take(i as int) =~= all);
    }
    sorted
}

/// The shapes a checker's suggestion comes in: words to put in place of the ones marked,
/// words to put after them, or the marked words taken out.
pub enum Suggestion {
    ReplaceWith(Vec<char>),
    InsertAfter(Vec<char>),
    Remove,
}

/// The one piece of text a suggestion puts where the marked words `marked` are.
pub open spec fn replacement_text(suggestion: Suggestion, marked: Seq<char>) -> Seq<char> {
    match suggestion {
        Suggestion::ReplaceWith(with) => with@,
        Suggestion::InsertAfter(after) => marked + after@,
        Suggestion::Remove => Seq::empty(),
    }
}

/// `String::push`.
#[verifier::external_body]
fn push_char(s: &mut String, c: char)
    ensures
        final(s)@ == old(s)@.push(c),
{
    s.push(c)
}

/// The text of some characters.
fn string_of(chars: &Vec<char>, from: usize, to: usize) -> (s: String)
    requires
        from <= to <= chars.len(),
    ensures
        s@ == chars@.subrange(from as int, to as int),
{
    let mut s = String::new();
    let mut i = from;
    while i < to
        invariant
            from <= i <= to <= chars.len(),
            s@ == chars@.subrange(from as int, i as int),
        decreases to - i,
    {
        push_char(&mut s, chars[i]);
        assert(s@ =~= chars@.subrange(from as int, i + 1));
        i = i + 1;
    }
    s
}

/// A finding of the checker's rules in the terms the editor works in: UTF-16 positions for
/// the characters `start..end` it marks, and for each suggestion the one piece of text that
/// should stand there. `None` where the span does not lie within the characters.
pub fn carry(start: usize, end: usize, message: String, suggestions: &Vec<Suggestion>, offsets: &Vec<u32>, characters: &Vec<char>) -> (lint: Option<Lint>)
    requires
        forall|i: int, j: int| 0 <= i <= j < offsets.len() ==> offsets[i] <= offsets[j],
    ensures
        !(start <= end && end < offsets.len() && end <= characters.len()) ==> lint is None,
        start <= end && end < offsets.len() && end <= characters.len() ==> (lint matches Some(l) && l.at
            == offsets[start as int] && l.len == offsets[end as int] - offsets[start as int] && l.message
            == message && l.word@.len() == 0 && !l.pending && crate::parse::views(l.replacements@)
            == suggestions@.map_values(|g: Suggestion| replacement_text(g, characters@.subrange(start as int, end as int)))),
{
    if !(start <= end && end < offsets.len() && end <= characters.len()) {
        return None;
    }
    let at = offsets[start];
    let stop = offsets[end];
    let ghost marked = characters@.subrange(start as int, end as int);
    let mut replacements: Vec<String> = Vec::new();
    let mut i: usize = 0;
    while i < suggestions.len()
        invariant
            start <= end <= characters.len(),
            marked == characters@.subrange(start as int, end as int),
            0 <= i <= suggestions.len(),
            replacements.len() == i,
            forall|k: int| 0 <= k < i ==> (#[trigger] replacements@[k])@ == replacement_text(suggestions@[k], marked),
        decreases suggestions.len() - i,
    {
        let text = match &suggestions[i] {
            Suggestion::ReplaceWith(with) => string_of(with, 0, with.len()),
            Suggestion::InsertAfter(after) => {
                let mut both = string_of(characters, start, end);
                let rest = string_of(after, 0, after.len());
                both.append(rest.as_str());
                both
            },
            Suggestion::Remove => String::new(),
        };
        proof {
            match suggestions@[i as int] {
                Suggestion::ReplaceWith(with) => assert(with@.subrange(0, with@.len() as int) =~= with@),
                Suggestion::InsertAfter(after) => assert(after@.subrange(0, after@.len() as int) =~= after@),
                Suggestion::Remove => {},
            }
        }
        replacements.push(text);
        i = i + 1;
    }
    assert(crate::parse::views(replacements@) =~= suggestions@.map_values(|g: Suggestion| replacement_text(g, marked)));
    Some(Lint { at, len: stop - at, message, replacements, word: String::new(), pending: false })
}

/// A word the dictionary does not know, as a finding: where it stands, a message naming it,
/// and nothing offered yet, since working out what was meant is left until it is asked for.
/// `None` where the word does not lie within the characters.
pub fn misspelling(start: usize, end: usize, offsets: &Vec<u32>, characters: &Vec<char>) -> (lint: Option<Lint>)
    requires
        forall|i: int, j: int| 0 <= i <= j < offsets.len() ==> offsets[i] <= offsets[j],
    ensures
        !(start <= end && end < offsets.len() && end <= characters.len()) ==> lint is None,
        start <= end && end < offsets.len() && end <= characters.len() ==> (lint matches Some(l) && l.at
            == offsets[start as int] && l.len == offsets[end as int] - offsets[start as int]
            && l.word@ == characters@.subrange(start as int, end as int) && l.message@ == "`"@
            + characters@.subrange(start as int, end as int) + "` is not in the dictionary."@
            && l.replacements@.len() == 0 && l.pending),
{
    if !(start <= end && end < offsets.len() && end <= characters.len()) {
        return None;
    }
    let word = string_of(characters, start, end);
    let mut message = String::new();
    message.append("`");
    message.append(word.as_str());
    message.append("` is not in the dictionary.");
    Some(Lint { at: offsets[start], len: offsets[end] - offsets[start], message, replacements: Vec::new(), word, pending: true })
}


/// Whether an event is code: an inline code span, or the opening of a code block, fenced or
/// indented.
pub open spec fn opens_code(event: Event) -> bool {
    match event {
        Event::Code => true,
        Event::Start(name) => name@ == "CodeBlock"@,
        _ => false,
    }
}

/// The parts left alone only grow as more events are read.
proof fn lemma_left_alone_grows(s: Seq<char>, pieces: Seq<Piece>, j: int)
    requires
        0 <= j <= pieces.len(),
        left_alone_in(s, pieces) is Some,
    ensures
        left_alone_in(s, pieces.take(j)) is Some,
        forall|x: (u32, u32)| #[trigger] left_alone_in(s, pieces.take(j)).unwrap().contains(x) ==> left_alone_in(
            s,
            pieces,
        ).unwrap().contains(x),
    decreases pieces.len(),
{
    if j == pieces.len() {
        assert(pieces.take(j) =~= pieces);
    } else {
        let shorter = pieces.drop_last();
        assert(shorter.take(j) =~= pieces.take(j));
        lemma_left_alone_grows(s, shorter, j);
        let before = left_alone_in(s, shorter).unwrap();
        let after = left_alone_in(s, pieces).unwrap();
        assert forall|x: (u32, u32)| before.contains(x) implies after.contains(x) by {
            let i = choose|i: int| 0 <= i < before.len() && before[i] == x;
            if after != before {
                assert(after[i] == x);
            }
        }
    }
}

/// The name `CodeBlock` stands for a code block.
proof fn lemma_code_block_named()
    ensures
        element_named("CodeBlock"@) == Element::CodeBlock,
{
    reveal_strlit("CodeBlock");
    reveal_strlit("Paragraph");
    reveal_strlit("Heading(");
    let n = "CodeBlock"@;
    assert(!"Heading("@.is_prefix_of(n)) by {
        assert(n.subrange(0, 8)[0] != "Heading("@[0]);
    }
}

/// What is put in place keeps to what was there and the one put in.
proof fn lemma_insert_lint_members(sorted: Seq<Lint>, x: Lint)
    ensures
        forall|i: int| 0 <= i < insert_lint(sorted, x).len() ==> #[trigger] insert_lint(sorted, x)[i] == x
            || sorted.contains(insert_lint(sorted, x)[i]),
    decreases sorted.len(),
{
    if sorted.len() > 0 && !no_later(sorted.last(), x) {
        let shorter = sorted.drop_last();
        lemma_insert_lint_members(shorter, x);
        let r = insert_lint(shorter, x);
        assert forall|i: int| 0 <= i < insert_lint(sorted, x).len() implies #[trigger] insert_lint(sorted, x)[i] == x
            || sorted.contains(insert_lint(sorted, x)[i]) by {
            if i < r.len() {
                if r[i] != x {
                    let j = choose|j: int| 0 <= j < shorter.len() && shorter[j] == r[i];
                    assert(sorted[j] == r[i]);
                }
            } else {
                assert(sorted[sorted.len() - 1] == sorted.last());
            }
        }
    } else if sorted.len() > 0 {
        assert forall|i: int| 0 <= i < insert_lint(sorted, x).len() implies #[trigger] insert_lint(sorted, x)[i] == x
            || sorted.contains(insert_lint(sorted, x)[i]) by {
            if i < sorted.len() {
                assert(sorted[i] == insert_lint(sorted, x)[i]);
            }
        }
    }
}

/// Every lint kept stays clear of every part left alone.
proof fn lemma_tidied_clear(lints: Seq<Lint>, parts: Seq<(u32, u32)>)
    ensures
        forall|i: int| 0 <= i < tidied(lints, parts).len() ==> clear_of(#[trigger] tidied(lints, parts)[i], parts),
    decreases lints.len(),
{
    if lints.len() > 0 {
        let rest = tidied(lints.drop_last(), parts);
        lemma_tidied_clear(lints.drop_last(), parts);
        if clear_of(lints.last(), parts) {
            lemma_insert_lint_members(rest, lints.last());
            assert forall|i: int| 0 <= i < tidied(lints, parts).len() implies clear_of(
                #[trigger] tidied(lints, parts)[i],
                parts,
            ) by {
                let y = tidied(lints, parts)[i];
                if y != lints.last() {
                    let j = choose|j: int| 0 <= j < rest.len() && rest[j] == y;
                    assert(clear_of(rest[j], parts));
                }
            }
        }
    }
}

/// Code is left alone: every inline code span and every code block, fenced or indented,
/// puts its whole UTF-16 range among the parts the checker keeps off, and no lint that
/// reaches into that range is kept once the lints are tidied against those parts.
pub proof fn law_code_is_left_alone(s: Seq<char>, pieces: Seq<Piece>, k: int, c1: int, c2: int, found: Seq<Lint>)
    requires
        left_alone_in(s, pieces) is Some,
        0 <= k < pieces.len(),
        opens_code(pieces[k].event),
        starts_char(s, c1, pieces[k].start as int),
        starts_char(s, c2, pieces[k].end as int),
    ensures
        ({
            let parts = left_alone_in(s, pieces).unwrap();
            let range = (utf16_len(s.take(c1)) as u32, utf16_len(s.take(c2)) as u32);
            &&& parts.contains(range)
            &&& forall|i: int| 0 <= i < tidied(found, parts).len() ==> !overlapping(#[trigger] tidied(found, parts)[i], range)
        }),
{
    let parts = left_alone_in(s, pieces).unwrap();
    let range = (utf16_len(s.take(c1)) as u32, utf16_len(s.take(c2)) as u32);
    lemma_left_alone_grows(s, pieces, k + 1);
    let t = pieces.take(k + 1);
    assert(t.drop_last() =~= pieces.take(k));
    assert(t.last() == pieces[k]);
    lemma_code_block_named();
    assert(unchecked_event(pieces[k].event));
    let a = choose|j: int| starts_char(s, j, pieces[k].start as int);
    crate::parse::lemma_starts_char_unique(s, a, c1, pieces[k].start as int);
    let b = choose|j: int| starts_char(s, j, pieces[k].end as int);
    crate::parse::lemma_starts_char_unique(s, b, c2, pieces[k].end as int);
    let here = left_alone_in(s, t).unwrap();
    assert(here[here.len() - 1] == range);
    assert(here.contains(range));
    assert(parts.contains(range));
    lemma_tidied_clear(found, parts);
    let i0 = choose|i: int| 0 <= i < parts.len() && parts[i] == range;
    assert forall|i: int| 0 <= i < tidied(found, parts).len() implies !overlapping(#[trigger] tidied(found, parts)[i], range) by {
        assert(clear_of(tidied(found, parts)[i], parts));
        assert(!overlapping(tidied(found, parts)[i], parts[i0]));
    }
}

} // verus!
