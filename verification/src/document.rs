//! The document being edited, as a state the view reads: its blocks and the source between
//! them, where the cursor is, the selection, what the checker says where the cursor stands,
//! and what the writer can take back. Each operation is a step from one state to the next;
//! where a step needs something only the outside can tell (what the checker found, how a
//! block re-reads), it says so and is handed the answer.

use vstd::prelude::*;
use crate::lint::{copy_strings, set_checking, Checker, Lint};
use crate::parse::{joined, law_segments_rejoin, segmented, segments, Segments};
use crate::text::{all_white, chars_of, len_utf16, utf16_len};
use vstd::string::StringExecFns;
use crate::parse::views;

verus! {

/// How many steps back the writer can go.
pub const UNDO_LIMIT: usize = 512;

/// What the writer can go back to: the blocks, the source between them, and where the cursor
/// and selection stood.
pub struct UndoState {
    pub blocks: Vec<String>,
    pub gaps: Vec<String>,
    pub active_index: i32,
    pub selection_anchor: i32,
    pub selection_position: i32,
    pub cursor_position: i32,
    pub revision: u64,
}

/// An undo state as the contracts read it.
pub struct UndoView {
    pub blocks: Seq<Seq<char>>,
    pub gaps: Seq<Seq<char>>,
    pub active_index: i32,
    pub selection_anchor: i32,
    pub selection_position: i32,
    pub cursor_position: i32,
    pub revision: u64,
}

impl View for UndoState {
    type V = UndoView;

    open spec fn view(&self) -> UndoView {
        UndoView {
            blocks: views(self.blocks@),
            gaps: views(self.gaps@),
            active_index: self.active_index,
            selection_anchor: self.selection_anchor,
            selection_position: self.selection_position,
            cursor_position: self.cursor_position,
            revision: self.revision,
        }
    }
}

/// Some undo states as the contracts read them.
pub open spec fn undo_views(states: Seq<UndoState>) -> Seq<UndoView> {
    states.map_values(|u: UndoState| u@)
}

/// What the checker has to be asked where the cursor now stands.
#[derive(Debug, PartialEq, Eq, Structural)]
pub enum LintLook {
    /// Nothing: what is on show stands.
    Unchanged,
    /// Ask what the checker makes of block `index` at UTF-16 position `cursor`, and hand the
    /// answer to [`DocumentRust::show_lint`].
    Ask { index: i32, cursor: i32 },
    /// Nothing is to be said: hand `None` to [`DocumentRust::show_lint`].
    Quiet,
}

/// The document being edited.
pub struct DocumentRust {
    pub blocks: Vec<String>,
    /// Source around the blocks: before, between, and after. Keeping it separately lets the
    /// view stay block-oriented without normalizing the file on save.
    pub gaps: Vec<String>,
    pub undo: Vec<UndoState>,
    pub revision: u64,
    pub saved_revision: u64,
    pub dirty: bool,
    pub active_index: i32,
    pub selection_anchor: i32,
    pub selection_position: i32,
    pub pending_cursor: i32,
    /// The block the lint on show was worked out for.
    pub lint_block: i32,
    /// Whether the typing has stopped.
    pub settled: bool,
    /// Whether the newest undo state is a run of typing that is still being added to.
    pub typing: bool,
    /// How far into its block the cursor is, counted the way Qt counts.
    pub cursor_position: i32,
    pub lint_message: String,
    /// Every suggestion the checker offered, of which `lint_replacement` is the one on show.
    pub lint_replacements: Vec<String>,
    pub lint_replacement: String,
    pub lint_word: String,
    pub lint_at: i32,
    pub lint_length: i32,
    pub lint_choice: i32,
    pub lint_options: i32,
    pub checking: bool,
    pub reading: bool,
    pub search_active: bool,
    pub search_count: i32,
    pub search_choice: i32,
    pub search_at: i32,
    pub search_alone: bool,
    pub search_serial: i32,
}

impl DocumentRust {
    /// The blocks as the contracts read them.
    pub open spec fn block_texts(&self) -> Seq<Seq<char>> {
        views(self.blocks@)
    }

    /// The gaps as the contracts read them.
    pub open spec fn gap_texts(&self) -> Seq<Seq<char>> {
        views(self.gaps@)
    }

    /// The state as an undo state would record it, with the cursor at `cursor`.
    pub open spec fn recorded(&self, cursor: i32) -> UndoView {
        UndoView {
            blocks: self.block_texts(),
            gaps: self.gap_texts(),
            active_index: self.active_index,
            selection_anchor: self.selection_anchor,
            selection_position: self.selection_position,
            cursor_position: cursor,
            revision: self.revision,
        }
    }

    /// There is always a block, one more gap than there are blocks, at most [`UNDO_LIMIT`]
    /// steps to go back, and every one of them a document of the same shape.
    pub open spec fn wf(&self) -> bool {
        &&& self.blocks.len() >= 1
        &&& self.blocks.len() < i32::MAX
        &&& self.gaps.len() == self.blocks.len() + 1
        &&& self.undo.len() <= UNDO_LIMIT
        &&& forall|i: int| 0 <= i < self.undo.len() ==> {
            &&& (#[trigger] self.undo@[i]).blocks.len() >= 1
            &&& self.undo@[i].blocks.len() < i32::MAX
            &&& self.undo@[i].gaps.len() == self.undo@[i].blocks.len() + 1
        }
    }

    /// A document holding one empty block, with nothing to undo. `checking` is the editor's
    /// switch for the checker.
    pub fn new(checking: bool) -> (doc: DocumentRust)
        ensures
            doc.wf(),
            doc.block_texts() == seq![Seq::<char>::empty()],
            doc.gap_texts() == seq![Seq::<char>::empty(), Seq::<char>::empty()],
            doc.undo@.len() == 0,
            doc.revision == 0 && doc.saved_revision == 0 && !doc.dirty,
            doc.active_index == 0 && doc.selection_anchor == -1 && doc.pending_cursor == -1,
            doc.settled && !doc.typing && doc.cursor_position == -1 && doc.lint_block == -1,
            doc.checking == checking && !doc.reading && !doc.search_active,
            doc.selection_position == 0,
            doc.lint_message@.len() == 0 && doc.lint_word@.len() == 0 && doc.lint_replacement@.len() == 0,
            doc.lint_replacements@.len() == 0,
            doc.lint_at == -1 && doc.lint_length == 0 && doc.lint_choice == 0 && doc.lint_options == 0,
            doc.search_count == 0 && doc.search_choice == -1 && doc.search_at == -1,
            !doc.search_alone && doc.search_serial == 0,
    {
        let doc = DocumentRust {
            blocks: vec![String::new()],
            gaps: vec![String::new(), String::new()],
            undo: Vec::new(),
            revision: 0,
            saved_revision: 0,
            dirty: false,
            active_index: 0i32,
            selection_anchor: -1i32,
            selection_position: 0i32,
            pending_cursor: -1i32,
            lint_block: -1,
            settled: true,
            typing: false,
            cursor_position: -1i32,
            lint_message: String::new(),
            lint_replacements: Vec::new(),
            lint_replacement: String::new(),
            lint_word: String::new(),
            lint_at: -1,
            lint_length: 0,
            lint_choice: 0,
            lint_options: 0,
            checking,
            reading: false,
            search_active: false,
            search_count: 0,
            search_choice: -1i32,
            search_at: -1i32,
            search_alone: false,
            search_serial: 0,
        };
        assert(doc.block_texts() =~= seq![Seq::<char>::empty()]);
        assert(doc.gap_texts() =~= seq![Seq::<char>::empty(), Seq::<char>::empty()]);
        doc
    }

    /// The state as an undo state, with the cursor at `cursor_position`.
    pub fn snapshot(&self, cursor_position: i32) -> (state: UndoState)
        ensures
            state@ == self.recorded(cursor_position),
            state.blocks.len() == self.blocks.len(),
            state.gaps.len() == self.gaps.len(),
    {
        UndoState {
            blocks: copy_strings(&self.blocks),
            gaps: copy_strings(&self.gaps),
            active_index: self.active_index,
            selection_anchor: self.selection_anchor,
            selection_position: self.selection_position,
            cursor_position,
            revision: self.revision,
        }
    }

    /// What [`DocumentRust::update_lint`] decides, as the contracts read it.
    pub open spec fn look(&self, cursor_position: i32) -> LintLook {
        if cursor_position < 0 && self.active_index == self.lint_block {
            LintLook::Unchanged
        } else if 0 <= self.active_index < self.blocks.len() && cursor_position >= 0 && self.settled {
            LintLook::Ask { index: self.active_index, cursor: cursor_position }
        } else {
            LintLook::Quiet
        }
    }

    /// What the checker is to be asked once the cursor reports `cursor_position`. A negative
    /// position is the editor being told where to put the cursor rather than saying where it
    /// is, so within the block the message was worked out for it is no news; elsewhere it
    /// clears what was said. Nothing is asked while the typing goes on.
    pub fn update_lint(&self, cursor_position: i32) -> (look: LintLook)
        ensures
            look == self.look(cursor_position),
    {
        let index = self.active_index;
        if cursor_position < 0 && index == self.lint_block {
            return LintLook::Unchanged;
        }
        if index >= 0 && (index as usize) < self.blocks.len() && cursor_position >= 0 && self.settled {
            LintLook::Ask { index, cursor: cursor_position }
        } else {
            LintLook::Quiet
        }
    }

    /// Put suggestion `choice` on show. Out of range (which is every choice when there are
    /// none) leaves nothing to show.
    pub fn show_suggestion(&mut self, choice: i32)
        ensures
            final(self).lint_choice == choice,
            final(self).lint_replacement@ == if 0 <= choice < old(self).lint_replacements.len() {
                old(self).lint_replacements@[choice as int]@
            } else {
                Seq::<char>::empty()
            },
            *final(self) == (DocumentRust {
                lint_choice: choice,
                lint_replacement: final(self).lint_replacement,
                ..*old(self)
            }),
    {
        let shown = if choice >= 0 && (choice as usize) < self.lint_replacements.len() {
            self.lint_replacements[choice as usize].clone()
        } else {
            String::new()
        };
        self.lint_choice = choice;
        self.lint_replacement = shown;
    }

    /// Show what the checker found where the cursor stands, as [`DocumentRust::update_lint`]
    /// asked: a wash says something is wrong there, and what. A lint with nothing to suggest
    /// has nothing to accept either, and says so by having no span to put anything in.
    pub fn show_lint(&mut self, found: Option<Lint>)
        ensures
            final(self).lint_block == old(self).active_index,
            match found {
                Some(l) => {
                    &&& final(self).lint_message@ == l.message@
                    &&& final(self).lint_word@ == l.word@
                    &&& final(self).lint_at == if l.replacements@.len() == 0 { -1i32 } else { l.at as i32 }
                    &&& final(self).lint_length == l.len as i32
                    &&& final(self).lint_options == l.replacements@.len() as i32
                    &&& final(self).lint_replacements@ == l.replacements@
                },
                None => {
                    &&& final(self).lint_message@.len() == 0
                    &&& final(self).lint_word@.len() == 0
                    &&& final(self).lint_at == -1
                    &&& final(self).lint_length == 0
                    &&& final(self).lint_options == 0
                    &&& final(self).lint_replacements@.len() == 0
                },
            },
            final(self).lint_choice == 0,
            final(self).lint_replacement@ == if final(self).lint_replacements@.len() > 0 {
                final(self).lint_replacements@[0]@
            } else {
                Seq::<char>::empty()
            },
            *final(self) == (DocumentRust {
                lint_block: old(self).active_index,
                lint_message: final(self).lint_message,
                lint_word: final(self).lint_word,
                lint_at: final(self).lint_at,
                lint_length: final(self).lint_length,
                lint_options: final(self).lint_options,
                lint_replacements: final(self).lint_replacements,
                lint_choice: 0,
                lint_replacement: final(self).lint_replacement,
                ..*old(self)
            }),
            final(self).wf() == old(self).wf(),
    {
        let (message, at, length, replacements, word) = match found {
            Some(lint) => (lint.message, lint.at as i32, lint.len as i32, lint.replacements, lint.word),
            None => (String::new(), -1i32, 0i32, Vec::new(), String::new()),
        };
        self.lint_block = self.active_index;
        self.lint_message = message;
        self.lint_word = word;
        let at = if replacements.len() == 0 {
            -1
        } else {
            at
        };
        self.lint_at = at;
        self.lint_length = length;
        self.lint_options = replacements.len() as i32;
        self.lint_replacements = replacements;
        self.show_suggestion(0);
    }

    /// A new undo state, with the cursor at `cursor_position`: the revision moves on, the
    /// document is dirty, and what the checker said is about text no longer there, so it is
    /// asked again once the typing stops.
    pub fn record_undo(&mut self, cursor_position: i32) -> (look: LintLook)
        requires
            old(self).wf(),
        ensures
            final(self).wf(),
            final(self).cursor_position == cursor_position,
            final(self).revision == old(self).revision.wrapping_add(1),
            final(self).dirty,
            !final(self).settled,
            undo_views(final(self).undo@) == pushed(undo_views(old(self).undo@), final(self).recorded(cursor_position)),
            final(self).blocks == old(self).blocks && final(self).gaps == old(self).gaps,
            final(self).active_index == old(self).active_index,
            final(self).selection_anchor == old(self).selection_anchor,
            final(self).selection_position == old(self).selection_position,
            final(self).typing == old(self).typing,
            final(self).saved_revision == old(self).saved_revision,
            final(self).lint_block == old(self).lint_block,
            *final(self) == (DocumentRust {
                undo: final(self).undo,
                cursor_position,
                revision: final(self).revision,
                dirty: true,
                settled: false,
                ..*old(self)
            }),
            look == final(self).look(cursor_position),
    {
        self.cursor_position = cursor_position;
        self.revision = self.revision.wrapping_add(1);
        self.dirty = true;
        let state = self.snapshot(cursor_position);
        let ghost before = undo_views(self.undo@);
        let ghost old_undo = self.undo@;
        self.undo.push(state);
        assert(undo_views(self.undo@) =~= before.push(state@));
        if self.undo.len() > UNDO_LIMIT {
            self.undo.remove(0);
            assert(undo_views(self.undo@) =~= before.push(state@).skip(1));
            assert forall|i: int| 0 <= i < self.undo.len() implies (#[trigger] self.undo@[i]).blocks.len() >= 1
                && self.undo@[i].blocks.len() < i32::MAX && self.undo@[i].gaps.len() == self.undo@[i].blocks.len() + 1 by {
                if i + 1 < old_undo.len() {
                    assert(self.undo@[i] == old_undo[i + 1]);
                }
            }
        } else {
            assert forall|i: int| 0 <= i < self.undo.len() implies (#[trigger] self.undo@[i]).blocks.len() >= 1
                && self.undo@[i].blocks.len() < i32::MAX && self.undo@[i].gaps.len() == self.undo@[i].blocks.len() + 1 by {
                if i < old_undo.len() {
                    assert(self.undo@[i] == old_undo[i]);
                }
            }
        }
        self.settled = false;
        self.update_lint(cursor_position)
    }

    /// Bring the newest undo state up to date with the cursor at `cursor_position`, without
    /// ending a run of typing: a keystroke moves the cursor, and the cursor moving is not
    /// something else happening.
    pub fn record_cursor(&mut self, cursor_position: i32) -> (look: LintLook)
        requires
            old(self).wf(),
        ensures
            final(self).wf(),
            final(self).cursor_position == cursor_position,
            undo_views(final(self).undo@) == refreshed(undo_views(old(self).undo@), final(self).recorded(cursor_position)),
            final(self).blocks == old(self).blocks && final(self).gaps == old(self).gaps,
            final(self).revision == old(self).revision && final(self).dirty == old(self).dirty,
            final(self).active_index == old(self).active_index,
            final(self).selection_anchor == old(self).selection_anchor,
            final(self).typing == old(self).typing && final(self).settled == old(self).settled,
            final(self).lint_block == old(self).lint_block,
            *final(self) == (DocumentRust { undo: final(self).undo, cursor_position, ..*old(self) }),
            look == final(self).look(cursor_position),
    {
        self.cursor_position = cursor_position;
        let state = self.snapshot(cursor_position);
        let ghost before = undo_views(self.undo@);
        let n = self.undo.len();
        let ghost old_undo = self.undo@;
        if n > 0 {
            self.undo.set(n - 1, state);
            assert(undo_views(self.undo@) =~= before.update(before.len() - 1, state@));
        } else {
            self.undo.push(state);
            assert(undo_views(self.undo@) =~= before.push(state@));
        }
        assert forall|i: int| 0 <= i < self.undo.len() implies (#[trigger] self.undo@[i]).blocks.len() >= 1
            && self.undo@[i].blocks.len() < i32::MAX && self.undo@[i].gaps.len() == self.undo@[i].blocks.len() + 1 by {
            if i < n - 1 {
                assert(self.undo@[i] == old_undo[i]);
            }
        }
        self.update_lint(cursor_position)
    }

    /// An edit that stands on its own (a block split, a merge, a selection deleted): the
    /// whole of it is one thing to undo.
    pub fn push_undo(&mut self, cursor_position: i32) -> (look: LintLook)
        requires
            old(self).wf(),
        ensures
            final(self).wf(),
            !final(self).typing,
            final(self).cursor_position == cursor_position,
            final(self).revision == old(self).revision.wrapping_add(1),
            final(self).dirty,
            undo_views(final(self).undo@) == pushed(undo_views(old(self).undo@), final(self).recorded(cursor_position)),
            final(self).blocks == old(self).blocks && final(self).gaps == old(self).gaps,
            final(self).active_index == old(self).active_index,
            final(self).selection_anchor == old(self).selection_anchor,
            *final(self) == (DocumentRust {
                undo: final(self).undo,
                cursor_position,
                revision: final(self).revision,
                dirty: true,
                settled: false,
                typing: false,
                ..*old(self)
            }),
            look == final(self).look(cursor_position),
    {
        self.typing = false;
        self.record_undo(cursor_position)
    }

    /// Something other than typing happened where the cursor is: the run it was in is over,
    /// and the newest state is brought up to date rather than added to.
    pub fn refresh_undo(&mut self, cursor_position: i32) -> (look: LintLook)
        requires
            old(self).wf(),
        ensures
            final(self).wf(),
            !final(self).typing,
            final(self).cursor_position == cursor_position,
            undo_views(final(self).undo@) == refreshed(undo_views(old(self).undo@), final(self).recorded(cursor_position)),
            final(self).blocks == old(self).blocks && final(self).gaps == old(self).gaps,
            final(self).revision == old(self).revision && final(self).dirty == old(self).dirty,
            final(self).active_index == old(self).active_index,
            final(self).selection_anchor == old(self).selection_anchor,
            final(self).settled == old(self).settled,
            *final(self) == (DocumentRust {
                undo: final(self).undo,
                cursor_position,
                typing: false,
                ..*old(self)
            }),
            look == final(self).look(cursor_position),
    {
        self.typing = false;
        self.record_cursor(cursor_position)
    }

    /// A keystroke. A run of them is one thing to undo rather than one per letter: the
    /// writer means a word, not the letters of it. The run stays open until the typing stops
    /// or anything that is not typing happens.
    pub fn push_typing(&mut self, cursor_position: i32) -> (look: LintLook)
        requires
            old(self).wf(),
        ensures
            final(self).wf(),
            final(self).typing,
            final(self).cursor_position == cursor_position,
            old(self).typing ==> undo_views(final(self).undo@) == refreshed(undo_views(old(self).undo@), final(self).recorded(cursor_position))
                && final(self).revision == old(self).revision && final(self).dirty == old(self).dirty
                && final(self).settled == old(self).settled,
            !old(self).typing ==> undo_views(final(self).undo@) == pushed(undo_views(old(self).undo@), final(self).recorded(cursor_position))
                && final(self).revision == old(self).revision.wrapping_add(1) && final(self).dirty && !final(self).settled,
            final(self).blocks == old(self).blocks && final(self).gaps == old(self).gaps,
            final(self).active_index == old(self).active_index,
            *final(self) == (DocumentRust {
                undo: final(self).undo,
                cursor_position,
                revision: final(self).revision,
                dirty: final(self).dirty,
                settled: final(self).settled,
                typing: true,
                ..*old(self)
            }),
            look == final(self).look(cursor_position),
    {
        let open = self.typing;
        self.typing = true;
        if open {
            return self.record_cursor(cursor_position);
        }
        self.record_undo(cursor_position)
    }

    /// Remember the cursor's position in block `index`, if that is the block being edited,
    /// without making an undo step of it.
    pub fn set_cursor_position(&mut self, index: i32, position: i32) -> (look: LintLook)
        requires
            old(self).wf(),
        ensures
            final(self).wf(),
            index == old(self).active_index ==> final(self).cursor_position == position && undo_views(final(self).undo@)
                == refreshed(undo_views(old(self).undo@), final(self).recorded(position)) && look == final(self).look(position)
                && *final(self) == (DocumentRust { undo: final(self).undo, cursor_position: position, ..*old(self) }),
            index != old(self).active_index ==> *final(self) == *old(self) && look == LintLook::Unchanged,
            final(self).blocks == old(self).blocks && final(self).gaps == old(self).gaps,
    {
        if index == self.active_index {
            self.record_cursor(position)
        } else {
            LintLook::Unchanged
        }
    }

    /// Take back the last change, regardless of which block made it: the newest undo state
    /// goes, and the document returns to the one before it, cursor and selection included.
    /// With nothing before it, nothing changes.
    pub fn undo(&mut self) -> (look: LintLook)
        requires
            old(self).wf(),
        ensures
            final(self).wf(),
            !final(self).typing,
            old(self).undo.len() < 2 ==> look == LintLook::Unchanged && *final(self) == (DocumentRust {
                typing: false,
                ..*old(self)
            }),
            old(self).undo.len() >= 2 ==> {
                let back = undo_views(old(self).undo@)[old(self).undo.len() - 2];
                &&& undo_views(final(self).undo@) == undo_views(old(self).undo@).drop_last()
                &&& final(self).block_texts() == back.blocks
                &&& final(self).gap_texts() == back.gaps
                &&& final(self).active_index == back.active_index
                &&& final(self).selection_anchor == back.selection_anchor
                &&& final(self).selection_position == back.selection_position
                &&& final(self).pending_cursor == back.cursor_position
                &&& final(self).cursor_position == back.cursor_position
                &&& final(self).revision == back.revision
                &&& final(self).dirty == (back.revision != old(self).saved_revision)
                &&& *final(self) == (DocumentRust {
                    blocks: final(self).blocks,
                    gaps: final(self).gaps,
                    undo: final(self).undo,
                    selection_anchor: back.selection_anchor,
                    selection_position: back.selection_position,
                    pending_cursor: back.cursor_position,
                    active_index: back.active_index,
                    revision: back.revision,
                    cursor_position: back.cursor_position,
                    dirty: final(self).dirty,
                    typing: false,
                    ..*old(self)
                })
                &&& look == final(self).look(back.cursor_position)
            },
    {
        self.typing = false;
        if self.undo.len() < 2 {
            return LintLook::Unchanged;
        }
        let ghost before = undo_views(self.undo@);
        let ghost n = self.undo.len();
        assert(self.undo@[n - 2].blocks.len() >= 1);
        let ghost old_undo = self.undo@;
        self.undo.pop();
        assert(undo_views(self.undo@) =~= before.drop_last());
        assert forall|i: int| 0 <= i < self.undo.len() implies (#[trigger] self.undo@[i]).blocks.len() >= 1
            && self.undo@[i].blocks.len() < i32::MAX && self.undo@[i].gaps.len() == self.undo@[i].blocks.len() + 1 by {
            assert(self.undo@[i] == old_undo[i]);
        }
        let last = self.undo.len() - 1;
        let state = UndoState {
            blocks: copy_strings(&self.undo[last].blocks),
            gaps: copy_strings(&self.undo[last].gaps),
            active_index: self.undo[last].active_index,
            selection_anchor: self.undo[last].selection_anchor,
            selection_position: self.undo[last].selection_position,
            cursor_position: self.undo[last].cursor_position,
            revision: self.undo[last].revision,
        };
        assert(state@ == before[n - 2]);
        self.selection_anchor = state.selection_anchor;
        self.selection_position = state.selection_position;
        self.pending_cursor = state.cursor_position;
        self.active_index = state.active_index;
        self.blocks = state.blocks;
        self.gaps = state.gaps;
        self.revision = state.revision;
        self.cursor_position = state.cursor_position;
        self.dirty = state.revision != self.saved_revision;
        self.update_lint(state.cursor_position)
    }

    /// Whether the typing has stopped. Nothing is said about a block while it is being typed
    /// into (a word half-written is not a word spelled wrong), and the checker has its say
    /// once the writer pauses. The pause is also what ends a run of typing.
    pub fn settle(&mut self, settled: bool) -> (look: LintLook)
        ensures
            old(self).settled == settled ==> look == LintLook::Unchanged && *final(self) == *old(self),
            old(self).settled != settled ==> *final(self) == (DocumentRust {
                settled,
                typing: old(self).typing && !settled,
                ..*old(self)
            }) && look == final(self).look(old(self).cursor_position),
            final(self).blocks == old(self).blocks && final(self).gaps == old(self).gaps && final(self).undo == old(self).undo,
            final(self).wf() == old(self).wf(),
    {
        if self.settled == settled {
            return LintLook::Unchanged;
        }
        self.settled = settled;
        self.typing = self.typing && !settled;
        self.update_lint(self.cursor_position)
    }

    /// Look again at where the cursor is standing.
    pub fn refresh_lint(&self) -> (look: LintLook)
        ensures
            look == self.look(self.cursor_position),
    {
        self.update_lint(self.cursor_position)
    }

    /// Show the next suggestion the checker offered, or the one before it. They wrap around;
    /// only one is ever shown, and with fewer than two there is nothing to cycle.
    pub fn cycle_lint(&mut self, direction: i32)
        ensures
            (old(self).lint_replacements.len() as i32) < 2 ==> *final(self) == *old(self),
            (old(self).lint_replacements.len() as i32) >= 2 ==> final(self).lint_choice == wrapping(
                old(self).lint_choice as int,
                direction as int,
                (old(self).lint_replacements.len() as i32) as int,
            ) && final(self).lint_replacement@ == old(self).lint_replacements@[final(self).lint_choice as int]@
                && *final(self) == (DocumentRust {
                lint_choice: final(self).lint_choice,
                lint_replacement: final(self).lint_replacement,
                ..*old(self)
            }),
            final(self).blocks == old(self).blocks && final(self).gaps == old(self).gaps && final(self).undo == old(self).undo,
            final(self).wf() == old(self).wf(),
    {
        let count = self.lint_replacements.len() as i32;
        if count < 2 {
            return;
        }
        let choice = wrapped(self.lint_choice, direction, count);
        self.show_suggestion(choice);
    }
}

/// The history with a new state added at the end, and the oldest forgotten past
/// [`UNDO_LIMIT`].
pub open spec fn pushed(history: Seq<UndoView>, state: UndoView) -> Seq<UndoView> {
    if history.len() + 1 > UNDO_LIMIT {
        history.push(state).skip(1)
    } else {
        history.push(state)
    }
}

/// The history with its newest state brought up to date, or begun with it when empty.
pub open spec fn refreshed(history: Seq<UndoView>, state: UndoView) -> Seq<UndoView> {
    if history.len() > 0 {
        history.update(history.len() - 1, state)
    } else {
        seq![state]
    }
}

/// `value` moved `step` places round a ring of `count`.
pub open spec fn wrapping(value: int, step: int, count: int) -> int {
    (value + step) % count
}

proof fn lemma_mod_multiple(q: int, c: int)
    requires
        c > 0,
    ensures
        (q * c) % c == 0,
{
    vstd::arithmetic::div_mod::lemma_mod_multiples_basic(q, c);
}

proof fn lemma_mod_offset(q: int, c: int, r: int)
    requires
        c > 0,
        0 <= r < c,
    ensures
        (q * c + r) % c == r,
{
    vstd::arithmetic::div_mod::lemma_fundamental_div_mod_converse(q * c + r, c, q, r);
}

/// `value` moved `step` places round a ring of `count`, wrapping at either end.
pub fn wrapped(value: i32, step: i32, count: i32) -> (moved: i32)
    requires
        count > 0,
    ensures
        moved == wrapping(value as int, step as int, count as int),
        0 <= moved < count,
{
    let sum = value as i64 + step as i64;
    let c = count as i64;
    let moved: i64 = if sum >= 0 {
        sum % c
    } else {
        let r = (-sum) % c;
        if r == 0 {
            0
        } else {
            c - r
        }
    };
    proof {
        if sum < 0 {
            let neg = -sum;
            let q = neg / (c as int);
            let r = neg % (c as int);
            assert(neg == q * c + r && 0 <= r < c) by (nonlinear_arith)
                requires
                    neg >= 0,
                    c > 0,
                    q == neg / (c as int),
                    r == neg % (c as int),
            {
            }
            if r == 0 {
                assert((sum as int) == (-q) * c) by (nonlinear_arith)
                    requires
                        neg == q * c + r,
                        sum == -neg,
                        r == 0,
                {
                }
                lemma_mod_multiple(-q, c as int);
            } else {
                assert((sum as int) == (-q - 1) * c + (c - r)) by (nonlinear_arith)
                    requires
                        neg == q * c + r,
                        sum == -neg,
                {
                }
                lemma_mod_offset(-q - 1, c as int, c - r);
            }
        }
    }
    moved as i32
}

/// Undoing an edit brings back the state recorded before it: whatever the history held,
/// adding a state for the edit and then taking the newest state back leaves, as the one the
/// document returns to, the state that was newest before the edit.
pub proof fn law_undo_restores(history: Seq<UndoView>, state: UndoView)
    requires
        history.len() >= 1,
        history.len() <= UNDO_LIMIT,
    ensures
        pushed(history, state).len() >= 2,
        pushed(history, state).drop_last().last() == history.last(),
        pushed(history, state).len() <= UNDO_LIMIT,
{
    let all = history.push(state);
    if history.len() + 1 > UNDO_LIMIT {
        assert(all.skip(1).drop_last().last() == all[all.len() - 2]);
    }
}

/// A run of typing is one thing to undo: however many keystrokes it takes, the history
/// keeps its length, its newest state following the cursor.
pub proof fn law_typing_is_one_step(history: Seq<UndoView>, state: UndoView)
    requires
        history.len() >= 1,
    ensures
        refreshed(history, state).len() == history.len(),
        refreshed(history, state).last() == state,
        refreshed(history, state).drop_last() == history.drop_last(),
{
    assert(refreshed(history, state).drop_last() =~= history.drop_last());
}

/// The number of UTF-16 units in `text`, as a QString counts it.
fn utf16_count(text: &String) -> (n: usize)
    ensures
        n == utf16_len(text@),
{
    let t = text.as_str();
    let chars = chars_of(t);
    let ghost s = chars@;
    proof {
        crate::text::lemma_str_len(t);
    }
    let total = t.as_bytes().len();
    let mut n: usize = 0;
    let mut i: usize = 0;
    while i < chars.len()
        invariant
            s == chars@,
            s == text@,
            total == crate::text::utf8_len(s),
            0 <= i <= s.len(),
            n == utf16_len(s.take(i as int)),
        decreases s.len() - i,
    {
        proof {
            crate::text::lemma_take_push(s, i as int);
            crate::text::lemma_prefix_len(s, 0, i + 1);
            crate::text::lemma_prefix_len(s, i + 1, s.len() as int);
            assert(s.take(0) =~= Seq::<char>::empty());
            assert(s.take(s.len() as int) =~= s);
        }
        n = n + len_utf16(chars[i]);
        i = i + 1;
    }
    assert(s.take(s.len() as int) =~= s);
    n
}

/// Whether `text` is blank once its whitespace is taken off.
fn is_blank(text: &String) -> (b: bool)
    ensures
        b == all_white(text@),
{
    let chars = chars_of(text.as_str());
    assert(chars@.subrange(0, chars@.len() as int) =~= chars@);
    crate::text::only_whitespace(&chars, 0, chars.len())
}

/// `value` held between `low` and `high`.
pub open spec fn clamped(value: int, low: int, high: int) -> int {
    if value < low {
        low
    } else if value > high {
        high
    } else {
        value
    }
}

/// The text of a document: the gaps and blocks put back together, which is what saving
/// writes.
pub fn source(blocks: &Vec<String>, gaps: &Vec<String>) -> (text: String)
    requires
        gaps.len() == blocks.len() + 1,
    ensures
        text@ == joined(views(blocks@), views(gaps@)),
{
    let mut text = gaps[0].clone();
    let mut i: usize = 0;
    proof {
        reveal_with_fuel(joined, 1);
        assert(views(blocks@).take(0) =~= Seq::<Seq<char>>::empty());
        assert(views(gaps@).take(1) =~= seq![gaps@[0]@]);
    }
    while i < blocks.len()
        invariant
            gaps.len() == blocks.len() + 1,
            0 <= i <= blocks.len(),
            text@ == joined(views(blocks@).take(i as int), views(gaps@).take(i + 1)),
        decreases blocks.len() - i,
    {
        proof {
            let b = views(blocks@).take(i + 1);
            let g = views(gaps@).take(i + 2);
            assert(b.drop_last() =~= views(blocks@).take(i as int));
            assert(g.drop_last() =~= views(gaps@).take(i + 1));
        }
        text.append(blocks[i].as_str());
        text.append(gaps[i + 1].as_str());
        i = i + 1;
    }
    proof {
        assert(views(blocks@).take(blocks.len() as int) =~= views(blocks@));
        assert(views(gaps@).take(blocks.len() + 1) =~= views(gaps@));
    }
    text
}

impl DocumentRust {
    /// The text of the document, as saving writes it.
    pub fn text(&self) -> (text: String)
        requires
            self.wf(),
        ensures
            text@ == joined(self.block_texts(), self.gap_texts()),
    {
        source(&self.blocks, &self.gaps)
    }

    /// The document has been written out: it is clean until it changes again.
    pub fn saved(&mut self)
        ensures
            *final(self) == (DocumentRust { saved_revision: old(self).revision, dirty: false, ..*old(self) }),
    {
        self.saved_revision = self.revision;
        self.dirty = false;
    }

    /// Drop `count` blocks from `first` on, keeping the gap before them and dropping the
    /// source they occupied up to the gap after them.
    pub fn remove_rows(&mut self, first: i32, count: i32)
        requires
            old(self).wf(),
            0 <= first,
            0 <= count,
            first + count <= old(self).blocks.len(),
            old(self).blocks.len() - count >= 1,
        ensures
            final(self).wf(),
            final(self).block_texts() == old(self).block_texts().subrange(0, first as int) + old(self).block_texts().subrange(
                first + count,
                old(self).blocks.len() as int,
            ),
            final(self).gap_texts() == old(self).gap_texts().subrange(0, first + 1) + old(self).gap_texts().subrange(
                first + count + 1,
                old(self).gaps.len() as int,
            ),
            *final(self) == (DocumentRust { blocks: final(self).blocks, gaps: final(self).gaps, ..*old(self) }),
    {
        let ghost b0 = self.block_texts();
        let ghost g0 = self.gap_texts();
        let mut k: i32 = 0;
        while k < count
            invariant
                0 <= k <= count,
                0 <= first,
                first + count <= b0.len(),
                g0.len() == b0.len() + 1,
                self.block_texts() == b0.subrange(0, first as int) + b0.subrange(first + k, b0.len() as int),
                self.gap_texts() == g0.subrange(0, first + 1) + g0.subrange(first + k + 1, g0.len() as int),
                self.blocks.len() == b0.len() - k,
                self.gaps.len() == g0.len() - k,
                *self == (DocumentRust { blocks: self.blocks, gaps: self.gaps, ..*old(self) }),
            decreases count - k,
        {
            let ghost bs = self.blocks@;
            let ghost gs = self.gaps@;
            self.blocks.remove(first as usize);
            self.gaps.remove(first as usize + 1);
            assert(self.block_texts() =~= views(bs).remove(first as int));
            assert(self.gap_texts() =~= views(gs).remove(first + 1));
            assert(self.block_texts() =~= b0.subrange(0, first as int) + b0.subrange(first + k + 1, b0.len() as int));
            assert(self.gap_texts() =~= g0.subrange(0, first + 1) + g0.subrange(first + k + 2, g0.len() as int));
            k = k + 1;
        }
    }

    /// Put `blocks` in as rows from `first` on, with `separators` as the source after each
    /// of them (the gap that stood after block `first - 1` ends up after the last).
    pub fn insert_rows(&mut self, first: i32, blocks: Vec<String>, separators: Vec<String>)
        requires
            old(self).wf(),
            0 <= first <= old(self).blocks.len(),
            separators.len() == blocks.len(),
            old(self).blocks.len() + blocks.len() < i32::MAX,
        ensures
            final(self).wf(),
            final(self).block_texts() == old(self).block_texts().subrange(0, first as int) + views(blocks@)
                + old(self).block_texts().subrange(first as int, old(self).blocks.len() as int),
            final(self).gap_texts() == old(self).gap_texts().subrange(0, first as int) + views(separators@)
                + old(self).gap_texts().subrange(first as int, old(self).gaps.len() as int),
            *final(self) == (DocumentRust { blocks: final(self).blocks, gaps: final(self).gaps, ..*old(self) }),
    {
        let ghost b0 = self.block_texts();
        let ghost g0 = self.gap_texts();
        let ghost nb = views(blocks@);
        let ghost ns = views(separators@);
        let mut k: usize = 0;
        while k < blocks.len()
            invariant
                0 <= k <= blocks.len(),
                separators.len() == blocks.len(),
                nb == views(blocks@),
                ns == views(separators@),
                0 <= first <= b0.len(),
                g0.len() == b0.len() + 1,
                b0.len() + blocks.len() < i32::MAX,
                self.block_texts() == b0.subrange(0, first as int) + nb.take(k as int) + b0.subrange(first as int, b0.len() as int),
                self.gap_texts() == g0.subrange(0, first as int) + ns.take(k as int) + g0.subrange(first as int, g0.len() as int),
                self.blocks.len() == b0.len() + k,
                self.gaps.len() == g0.len() + k,
                *self == (DocumentRust { blocks: self.blocks, gaps: self.gaps, ..*old(self) }),
            decreases blocks.len() - k,
        {
            let ghost bs = self.blocks@;
            let ghost gs = self.gaps@;
            self.blocks.insert(first as usize + k, blocks[k].clone());
            self.gaps.insert(first as usize + k, separators[k].clone());
            assert(self.block_texts() =~= b0.subrange(0, first as int) + nb.take(k + 1) + b0.subrange(first as int, b0.len() as int)) by {
                assert(self.block_texts() =~= views(bs).insert(first + k, nb[k as int]));
            }
            assert(self.gap_texts() =~= g0.subrange(0, first as int) + ns.take(k + 1) + g0.subrange(first as int, g0.len() as int)) by {
                assert(self.gap_texts() =~= views(gs).insert(first + k, ns[k as int]));
            }
            k = k + 1;
        }
        assert(nb.take(blocks.len() as int) =~= nb);
        assert(ns.take(blocks.len() as int) =~= ns);
    }
}


/// The source between each pair of blocks, without what stands before the first and after the
/// last.
pub open spec fn inner(gaps: Seq<Seq<char>>) -> Seq<Seq<char>> {
    gaps.subrange(1, gaps.len() - 1)
}

/// What a block re-reads into once editing is done: the blocks the parser finds in it, and
/// the source between each pair of them. What stands before the first and after the last is
/// whitespace, and goes: the gaps around the block in the document stay where they are.
pub fn replacement(block: &str) -> (parts: (Vec<String>, Vec<String>))
    ensures
        views(parts.0@) == segmented(block@).0,
        views(parts.1@) == inner(segmented(block@).1),
        parts.0.len() >= 1,
        parts.1.len() + 1 == parts.0.len(),
{
    let Segments { blocks, gaps } = segments(block);
    proof {
        law_segments_rejoin(block@);
    }
    let mut gaps = gaps;
    let ghost all = views(gaps@);
    gaps.pop();
    gaps.remove(0);
    assert(views(gaps@) =~= inner(all));
    (blocks, gaps)
}

/// What committing block `index` makes of the blocks and gaps, and the change in the count of
/// rows. A block emptied out goes, unless it is all there is; one that re-reads as itself
/// stays; any other is swapped for what it re-reads into, unless that would take the document
/// past the rows a view can count.
pub open spec fn committed(blocks: Seq<Seq<char>>, gaps: Seq<Seq<char>>, index: int) -> (
    Seq<Seq<char>>,
    Seq<Seq<char>>,
    int,
) {
    if !(0 <= index < blocks.len()) {
        (blocks, gaps, 0)
    } else if all_white(blocks[index]) {
        if blocks.len() == 1 {
            (blocks, gaps, 0)
        } else {
            (blocks.remove(index), gaps.remove(index + 1), -1)
        }
    } else {
        let parts = segmented(blocks[index]).0;
        let seps = inner(segmented(blocks[index]).1);
        if (parts.len() == 1 && parts[0] == blocks[index]) || blocks.len() + parts.len() - 1 >= i32::MAX {
            (blocks, gaps, 0)
        } else {
            (
                blocks.subrange(0, index) + parts + blocks.subrange(index + 1, blocks.len() as int),
                gaps.subrange(0, index + 1) + seps + gaps.subrange(index + 1, gaps.len() as int),
                parts.len() - 1,
            )
        }
    }
}

impl DocumentRust {
    /// Swap block `index` for `replacement`, with `separators` as the source between each
    /// pair of them. Gives the change in the count of rows.
    fn replace_block(&mut self, index: i32, replacement: Vec<String>, separators: Vec<String>) -> (delta: i32)
        requires
            old(self).wf(),
            0 <= index < old(self).blocks.len(),
            replacement.len() >= 1,
            separators.len() + 1 == replacement.len(),
            old(self).blocks.len() + replacement.len() - 1 < i32::MAX,
        ensures
            final(self).wf(),
            final(self).block_texts() == old(self).block_texts().subrange(0, index as int) + views(replacement@)
                + old(self).block_texts().subrange(index + 1, old(self).blocks.len() as int),
            final(self).gap_texts() == old(self).gap_texts().subrange(0, index + 1) + views(separators@)
                + old(self).gap_texts().subrange(index + 1, old(self).gaps.len() as int),
            delta == replacement.len() - 1,
            *final(self) == (DocumentRust { blocks: final(self).blocks, gaps: final(self).gaps, ..*old(self) }),
    {
        let delta = replacement.len() as i32 - 1;
        let ghost b0 = self.block_texts();
        let ghost g0 = self.gap_texts();
        let ghost r = views(replacement@);
        let mut tail = replacement;
        let head = tail.remove(0);
        self.blocks.set(index as usize, head);
        assert(self.block_texts() =~= b0.update(index as int, r[0]));
        let ghost b1 = self.block_texts();
        self.insert_rows(index + 1, tail, separators);
        assert(views(tail@) =~= r.skip(1));
        assert(self.block_texts() =~= b0.subrange(0, index as int) + r + b0.subrange(index + 1, b0.len() as int)) by {
            assert(b1.subrange(0, index + 1) =~= b0.subrange(0, index as int).push(r[0]));
            assert(b1.subrange(index + 1, b1.len() as int) =~= b0.subrange(index + 1, b0.len() as int));
            assert(r =~= seq![r[0]] + r.skip(1));
        }
        delta
    }

    /// Re-read block `index` now that editing is done, as [`committed`] says, and give the
    /// change in the count of rows.
    pub fn commit(&mut self, index: i32) -> (delta: i32)
        requires
            old(self).wf(),
        ensures
            final(self).wf(),
            (final(self).block_texts(), final(self).gap_texts(), delta as int) == committed(
                old(self).block_texts(),
                old(self).gap_texts(),
                index as int,
            ),
            *final(self) == (DocumentRust { blocks: final(self).blocks, gaps: final(self).gaps, ..*old(self) }),
    {
        if index < 0 || index as usize >= self.blocks.len() {
            return 0;
        }
        let i = index as usize;
        let ghost b0 = self.block_texts();
        let ghost g0 = self.gap_texts();
        if is_blank(&self.blocks[i]) {
            if self.blocks.len() == 1 {
                return 0;
            }
            self.remove_rows(index, 1);
            assert(self.block_texts() =~= b0.remove(index as int));
            assert(self.gap_texts() =~= g0.remove(index + 1));
            return -1;
        }
        let (parts, separators) = replacement(self.blocks[i].as_str());
        if parts.len() == 1 && parts[0] == self.blocks[i] {
            return 0;
        }
        if parts.len() - 1 >= (i32::MAX as usize) - self.blocks.len() {
            return 0;
        }
        self.replace_block(index, parts, separators)
    }
}


impl DocumentRust {
    /// Whether going to block `target` commits the block being left.
    pub open spec fn leaves(&self, target: i32) -> bool {
        self.active_index != target && self.active_index >= 0
    }

    /// The blocks, the gaps and the change in the count of rows once the block being left
    /// for `target` is committed.
    pub open spec fn left_for(&self, target: i32) -> (Seq<Seq<char>>, Seq<Seq<char>>, int) {
        if self.leaves(target) {
            committed(self.block_texts(), self.gap_texts(), self.active_index as int)
        } else {
            (self.block_texts(), self.gap_texts(), 0)
        }
    }

    /// The block the cursor lands in going to `target`: moved along by the rows the commit
    /// adds or takes away before it, and held within the document.
    pub open spec fn landing(&self, target: i32) -> int {
        let shifted = if self.active_index < target {
            target + self.left_for(target).2
        } else {
            target as int
        };
        clamped(shifted, 0, self.left_for(target).0.len() - 1)
    }

    /// Commit the block being left and put the cursor in block `target` at `cursor`, where -1
    /// is the far edge of the block. There is always a cursor somewhere: the ends of the
    /// document just hold it. A selection is let go.
    pub fn activate_at(&mut self, target: i32, cursor: i32) -> (look: LintLook)
        requires
            old(self).wf(),
        ensures
            final(self).wf(),
            final(self).block_texts() == old(self).left_for(target).0,
            final(self).gap_texts() == old(self).left_for(target).1,
            final(self).active_index == old(self).landing(target),
            final(self).selection_anchor == -1,
            final(self).pending_cursor == cursor,
            !final(self).typing,
            final(self).cursor_position == cursor,
            undo_views(final(self).undo@) == refreshed(undo_views(old(self).undo@), final(self).recorded(cursor)),
            *final(self) == (DocumentRust {
                blocks: final(self).blocks,
                gaps: final(self).gaps,
                active_index: final(self).active_index,
                selection_anchor: -1i32,
                pending_cursor: cursor,
                typing: false,
                cursor_position: cursor,
                undo: final(self).undo,
                ..*old(self)
            }),
            look == final(self).look(cursor),
    {
        self.selection_anchor = -1;
        let previous = self.active_index;
        let mut shifted: i64 = target as i64;
        if previous != target && previous >= 0 {
            let delta = self.commit(previous);
            if previous < target {
                shifted = shifted + delta as i64;
            }
        }
        let last = self.blocks.len() as i64 - 1;
        let landing = if shifted < 0 {
            0
        } else if shifted > last {
            last
        } else {
            shifted
        };
        self.pending_cursor = cursor;
        self.active_index = landing as i32;
        self.refresh_undo(cursor)
    }

    /// Commit the block being edited and move the cursor to the far edge of block `target`.
    pub fn activate(&mut self, target: i32) -> (look: LintLook)
        requires
            old(self).wf(),
        ensures
            final(self).wf(),
            final(self).block_texts() == old(self).left_for(target).0,
            final(self).gap_texts() == old(self).left_for(target).1,
            final(self).active_index == old(self).landing(target),
            final(self).selection_anchor == -1,
            final(self).pending_cursor == -1,
            undo_views(final(self).undo@) == refreshed(undo_views(old(self).undo@), final(self).recorded(-1i32)),
            *final(self) == (DocumentRust {
                blocks: final(self).blocks,
                gaps: final(self).gaps,
                active_index: final(self).active_index,
                selection_anchor: -1i32,
                pending_cursor: -1i32,
                typing: false,
                cursor_position: -1i32,
                undo: final(self).undo,
                ..*old(self)
            }),
            look == final(self).look(-1i32),
    {
        self.activate_at(target, -1)
    }

    /// Move into the neighbouring block from `direction`, keeping to its near edge: its start
    /// going forward, its end going back.
    pub fn move_to(&mut self, target: i32, direction: i32) -> (look: LintLook)
        requires
            old(self).wf(),
        ensures
            final(self).wf(),
            final(self).block_texts() == old(self).left_for(target).0,
            final(self).gap_texts() == old(self).left_for(target).1,
            final(self).active_index == old(self).landing(target),
            final(self).selection_anchor == -1,
            final(self).pending_cursor == if direction > 0 { 0i32 } else { -1i32 },
            undo_views(final(self).undo@) == refreshed(
                undo_views(old(self).undo@),
                final(self).recorded(final(self).pending_cursor),
            ),
            *final(self) == (DocumentRust {
                blocks: final(self).blocks,
                gaps: final(self).gaps,
                active_index: final(self).active_index,
                selection_anchor: -1i32,
                pending_cursor: final(self).pending_cursor,
                typing: false,
                cursor_position: final(self).pending_cursor,
                undo: final(self).undo,
                ..*old(self)
            }),
            look == final(self).look(final(self).pending_cursor),
    {
        self.activate_at(
            target,
            if direction > 0 {
                0
            } else {
                -1
            },
        )
    }

    /// Whether the cursor can carry a selection into block `target`: it is a block, and not
    /// the one the cursor is in.
    pub open spec fn reaches(&self, target: i32) -> bool {
        0 <= target < self.blocks.len() && target != self.active_index
    }

    /// Carry a selection into block `target`, starting one at `anchor_position` in the block
    /// the cursor is leaving if there is none yet. Nothing re-reads under a selection: the
    /// block being left keeps its shape, so the rows the selection covers stay where they
    /// were while it grows. The cursor enters by the near edge, so that one press of an arrow
    /// takes in one line rather than the whole block.
    pub fn select_to(&mut self, target: i32, anchor_position: i32) -> (look: LintLook)
        requires
            old(self).wf(),
        ensures
            final(self).wf(),
            !old(self).reaches(target) ==> *final(self) == *old(self) && look == LintLook::Unchanged,
            old(self).reaches(target) ==> {
                let cursor = if target > old(self).active_index { 0i32 } else { -1i32 };
                &&& final(self).blocks == old(self).blocks && final(self).gaps == old(self).gaps
                &&& old(self).selection_anchor < 0 ==> final(self).selection_anchor == old(self).active_index
                    && final(self).selection_position == anchor_position
                &&& old(self).selection_anchor >= 0 ==> final(self).selection_anchor == old(self).selection_anchor
                    && final(self).selection_position == old(self).selection_position
                &&& final(self).pending_cursor == cursor
                &&& final(self).active_index == target
                &&& undo_views(final(self).undo@) == refreshed(undo_views(old(self).undo@), final(self).recorded(cursor))
                &&& *final(self) == (DocumentRust {
                    selection_anchor: final(self).selection_anchor,
                    selection_position: final(self).selection_position,
                    pending_cursor: cursor,
                    active_index: target,
                    typing: false,
                    cursor_position: cursor,
                    undo: final(self).undo,
                    ..*old(self)
                })
                &&& look == final(self).look(cursor)
            },
    {
        let previous = self.active_index;
        if target < 0 || target as usize >= self.blocks.len() || target == previous {
            return LintLook::Unchanged;
        }
        if self.selection_anchor < 0 {
            self.selection_anchor = previous;
            self.selection_position = anchor_position;
        }
        let cursor = if target > previous {
            0
        } else {
            -1
        };
        self.pending_cursor = cursor;
        self.active_index = target;
        self.refresh_undo(cursor)
    }

    /// Take the whole document into a selection: pinned at the top, with the cursor carried
    /// to the far edge of the last block.
    pub fn select_all(&mut self) -> (look: LintLook)
        requires
            old(self).wf(),
        ensures
            final(self).wf(),
            final(self).blocks == old(self).blocks && final(self).gaps == old(self).gaps,
            final(self).selection_anchor == 0 && final(self).selection_position == 0,
            final(self).pending_cursor == -1,
            final(self).active_index == old(self).blocks.len() - 1,
            undo_views(final(self).undo@) == refreshed(undo_views(old(self).undo@), final(self).recorded(-1i32)),
            *final(self) == (DocumentRust {
                selection_anchor: 0i32,
                selection_position: 0i32,
                pending_cursor: -1i32,
                active_index: final(self).active_index,
                typing: false,
                cursor_position: -1i32,
                undo: final(self).undo,
                ..*old(self)
            }),
            look == final(self).look(-1i32),
    {
        self.selection_anchor = 0;
        self.selection_position = 0;
        self.pending_cursor = -1;
        self.active_index = self.blocks.len() as i32 - 1;
        self.refresh_undo(-1)
    }

    /// Let a selection go, leaving the cursor where it stands.
    pub fn clear_selection(&mut self, cursor_position: i32) -> (look: LintLook)
        requires
            old(self).wf(),
        ensures
            final(self).wf(),
            final(self).blocks == old(self).blocks && final(self).gaps == old(self).gaps,
            final(self).selection_anchor == -1,
            final(self).active_index == old(self).active_index,
            undo_views(final(self).undo@) == refreshed(
                undo_views(old(self).undo@),
                final(self).recorded(cursor_position),
            ),
            *final(self) == (DocumentRust {
                selection_anchor: -1i32,
                typing: false,
                cursor_position,
                undo: final(self).undo,
                ..*old(self)
            }),
            look == final(self).look(cursor_position),
    {
        self.selection_anchor = -1;
        self.refresh_undo(cursor_position)
    }

    /// Re-read the block under the cursor now rather than when the cursor next leaves it, and
    /// put the cursor back inside whatever is there afterwards.
    pub fn recommit_active(&mut self)
        requires
            old(self).wf(),
        ensures
            final(self).wf(),
            old(self).active_index < 0 ==> *final(self) == *old(self),
            old(self).active_index >= 0 ==> {
                let c = committed(old(self).block_texts(), old(self).gap_texts(), old(self).active_index as int);
                &&& final(self).block_texts() == c.0
                &&& final(self).gap_texts() == c.1
                &&& final(self).active_index == clamped(old(self).active_index as int, 0, c.0.len() - 1)
                &&& *final(self) == (DocumentRust {
                    blocks: final(self).blocks,
                    gaps: final(self).gaps,
                    active_index: final(self).active_index,
                    ..*old(self)
                })
            },
    {
        let index = self.active_index;
        if index < 0 {
            return;
        }
        self.commit(index);
        let last = self.blocks.len() as i32 - 1;
        self.active_index = if index > last {
            last
        } else {
            index
        };
    }
}


impl DocumentRust {
    /// Store the text of block `index` as the writer types it: one keystroke, as
    /// [`DocumentRust::push_typing`] counts them. Text the block already holds, or a block
    /// that is not there, changes nothing.
    pub fn set_block_text(&mut self, index: i32, text: String, cursor_position: i32) -> (look: LintLook)
        requires
            old(self).wf(),
        ensures
            final(self).wf(),
            !(0 <= index < old(self).blocks.len()) || old(self).block_texts()[index as int] == text@ ==> *final(self)
                == *old(self) && look == LintLook::Unchanged,
            0 <= index < old(self).blocks.len() && old(self).block_texts()[index as int] != text@ ==> {
                &&& final(self).block_texts() == old(self).block_texts().update(index as int, text@)
                &&& final(self).gaps == old(self).gaps
                &&& final(self).typing
                &&& final(self).cursor_position == cursor_position
                &&& old(self).typing ==> undo_views(final(self).undo@) == refreshed(
                    undo_views(old(self).undo@),
                    final(self).recorded(cursor_position),
                )
                &&& !old(self).typing ==> undo_views(final(self).undo@) == pushed(
                    undo_views(old(self).undo@),
                    final(self).recorded(cursor_position),
                ) && final(self).dirty
                &&& final(self).active_index == old(self).active_index
                &&& *final(self) == (DocumentRust {
                    blocks: final(self).blocks,
                    undo: final(self).undo,
                    cursor_position,
                    revision: final(self).revision,
                    dirty: final(self).dirty,
                    settled: final(self).settled,
                    typing: true,
                    ..*old(self)
                })
                &&& look == final(self).look(cursor_position)
            },
    {
        if index < 0 || index as usize >= self.blocks.len() {
            return LintLook::Unchanged;
        }
        if self.blocks[index as usize] == text {
            return LintLook::Unchanged;
        }
        let ghost b0 = self.block_texts();
        let ghost t = text@;
        self.blocks.set(index as usize, text);
        assert(self.block_texts() =~= b0.update(index as int, t));
        self.push_typing(cursor_position)
    }

    /// Split block `index`, which the writer broke in two as `before` and `after`: each half
    /// is re-read, a blank line goes between them, and the cursor starts the second half.
    /// A block that is not there, or halves that would take the document past the rows a
    /// view can count, change nothing.
    pub fn split_block(&mut self, index: i32, before: &str, after: &str) -> (look: LintLook)
        requires
            old(self).wf(),
        ensures
            final(self).wf(),
            !(0 <= index < old(self).blocks.len()) || old(self).blocks.len() + segmented(before@).0.len() + segmented(
                after@,
            ).0.len() - 1 >= i32::MAX ==> *final(self) == *old(self) && look == LintLook::Unchanged,
            0 <= index < old(self).blocks.len() && old(self).blocks.len() + segmented(before@).0.len() + segmented(
                after@,
            ).0.len() - 1 < i32::MAX ==> {
                &&& final(self).block_texts() == old(self).block_texts().subrange(0, index as int) + segmented(before@).0
                    + segmented(after@).0 + old(self).block_texts().subrange(index + 1, old(self).blocks.len() as int)
                &&& final(self).gap_texts() == old(self).gap_texts().subrange(0, index + 1) + inner(segmented(before@).1)
                    + seq![seq!['\n', '\n']] + inner(segmented(after@).1) + old(self).gap_texts().subrange(
                    index + 1,
                    old(self).gaps.len() as int,
                )
                &&& final(self).active_index == index + segmented(before@).0.len()
                &&& final(self).pending_cursor == 0
                &&& final(self).cursor_position == 0
                &&& !final(self).typing && final(self).dirty
                &&& undo_views(final(self).undo@) == pushed(undo_views(old(self).undo@), final(self).recorded(0))
                &&& *final(self) == (DocumentRust {
                    blocks: final(self).blocks,
                    gaps: final(self).gaps,
                    active_index: final(self).active_index,
                    pending_cursor: 0i32,
                    cursor_position: 0i32,
                    typing: false,
                    dirty: true,
                    settled: false,
                    revision: old(self).revision.wrapping_add(1),
                    undo: final(self).undo,
                    ..*old(self)
                })
                &&& look == final(self).look(0)
            },
    {
        if index < 0 || index as usize >= self.blocks.len() {
            return LintLook::Unchanged;
        }
        let (mut split, mut separators) = replacement(before);
        let head = split.len();
        let (mut after_blocks, mut after_separators) = replacement(after);
        if head - 1 >= (i32::MAX as usize) - self.blocks.len() || after_blocks.len() >= (i32::MAX as usize)
            - self.blocks.len() - (head - 1) {
            return LintLook::Unchanged;
        }
        let ghost sb = views(split@);
        let ghost ss = views(separators@);
        let ghost ab = views(after_blocks@);
        let ghost asep = views(after_separators@);
        let blank = String::from_str("\n\n");
        proof {
            reveal_strlit("\n\n");
            assert(blank@ =~= seq!['\n', '\n']);
        }
        separators.push(blank);
        separators.append(&mut after_separators);
        split.append(&mut after_blocks);
        assert(views(split@) =~= sb + ab);
        assert(views(separators@) =~= ss + seq![seq!['\n', '\n']] + asep);
        self.replace_block(index, split, separators);
        self.pending_cursor = 0;
        self.active_index = index + head as i32;
        self.push_undo(0)
    }

    /// Merge block `index` into the one before it, keeping the cursor at the seam: as far
    /// into the joined block, counted the way Qt counts, as the earlier block ran. The source
    /// that stood between them goes. The first block, or one that is not there, has nothing
    /// to merge into.
    pub fn merge_with_previous(&mut self, index: i32) -> (look: LintLook)
        requires
            old(self).wf(),
        ensures
            final(self).wf(),
            !(1 <= index < old(self).blocks.len()) ==> *final(self) == *old(self) && look == LintLook::Unchanged,
            1 <= index < old(self).blocks.len() ==> {
                let b = old(self).block_texts();
                let cursor = utf16_len(b[index - 1]) as i32;
                &&& final(self).block_texts() == b.update(index - 1, b[index - 1] + b[index as int]).remove(index as int)
                &&& final(self).gap_texts() == old(self).gap_texts().remove(index as int)
                &&& final(self).active_index == index - 1
                &&& final(self).pending_cursor == cursor
                &&& final(self).cursor_position == cursor
                &&& !final(self).typing && final(self).dirty
                &&& undo_views(final(self).undo@) == pushed(undo_views(old(self).undo@), final(self).recorded(cursor))
                &&& *final(self) == (DocumentRust {
                    blocks: final(self).blocks,
                    gaps: final(self).gaps,
                    active_index: (index - 1) as i32,
                    pending_cursor: cursor,
                    cursor_position: cursor,
                    typing: false,
                    dirty: true,
                    settled: false,
                    revision: old(self).revision.wrapping_add(1),
                    undo: final(self).undo,
                    ..*old(self)
                })
                &&& look == final(self).look(cursor)
            },
    {
        if index < 1 || index as usize >= self.blocks.len() {
            return LintLook::Unchanged;
        }
        let ghost b0 = self.block_texts();
        let ghost g0 = self.gap_texts();
        let i = index as usize;
        let previous = i - 1;
        let cursor = utf16_count(&self.blocks[previous]) as i32;
        let mut merged = self.blocks[previous].clone();
        merged.append(self.blocks[i].as_str());
        self.blocks.set(previous, merged);
        let trailing = self.gaps[i + 1].clone();
        self.gaps.set(i, trailing);
        let ghost b1 = self.block_texts();
        let ghost g1 = self.gap_texts();
        assert(b1 =~= b0.update(index - 1, b0[index - 1] + b0[index as int]));
        assert(g1 =~= g0.update(index as int, g0[index + 1]));
        self.remove_rows(index, 1);
        assert(self.block_texts() =~= b1.remove(index as int));
        assert(self.gap_texts() =~= g0.remove(index as int));
        self.pending_cursor = cursor;
        self.active_index = index - 1;
        self.push_undo(cursor)
    }

    /// Put `kept` in place of the selection running over blocks `first` to `last`: what is
    /// left of the blocks at its two ends, joined into one with what was typed over it. The
    /// cursor is left at `cursor`, the seam, and the selection is let go. The source after
    /// the last of them stays, after the block that is left.
    pub fn delete_selection(&mut self, first: usize, last: usize, kept: String, cursor: i32) -> (look: LintLook)
        requires
            old(self).wf(),
            first <= last < old(self).blocks.len(),
        ensures
            final(self).wf(),
            final(self).block_texts() == old(self).block_texts().subrange(0, first as int).push(kept@) + old(
                self,
            ).block_texts().subrange(last + 1, old(self).blocks.len() as int),
            final(self).gap_texts() == old(self).gap_texts().subrange(0, first + 1) + old(self).gap_texts().subrange(
                last + 1,
                old(self).gaps.len() as int,
            ),
            final(self).selection_anchor == -1,
            final(self).pending_cursor == cursor,
            final(self).active_index == first,
            final(self).cursor_position == cursor,
            !final(self).typing && final(self).dirty,
            undo_views(final(self).undo@) == pushed(undo_views(old(self).undo@), final(self).recorded(cursor)),
            *final(self) == (DocumentRust {
                blocks: final(self).blocks,
                gaps: final(self).gaps,
                selection_anchor: -1i32,
                active_index: first as i32,
                pending_cursor: cursor,
                cursor_position: cursor,
                typing: false,
                dirty: true,
                settled: false,
                revision: old(self).revision.wrapping_add(1),
                undo: final(self).undo,
                ..*old(self)
            }),
            look == final(self).look(cursor),
    {
        let ghost b0 = self.block_texts();
        let ghost g0 = self.gap_texts();
        let ghost k = kept@;
        self.selection_anchor = -1;
        self.pending_cursor = cursor;
        self.blocks.set(first, kept);
        if last > first {
            let trailing = self.gaps[last + 1].clone();
            self.gaps.set(first + 1, trailing);
            let ghost b1 = self.block_texts();
            let ghost g1 = self.gap_texts();
            self.remove_rows(first as i32 + 1, (last - first) as i32);
            assert(self.block_texts() =~= b0.subrange(0, first as int).push(k) + b0.subrange(
                last + 1,
                b0.len() as int,
            ));
            assert(self.gap_texts() =~= g0.subrange(0, first + 1) + g0.subrange(last + 1, g0.len() as int));
        } else {
            assert(self.block_texts() =~= b0.subrange(0, first as int).push(k) + b0.subrange(
                last + 1,
                b0.len() as int,
            ));
            assert(self.gap_texts() =~= g0.subrange(0, first + 1) + g0.subrange(last + 1, g0.len() as int));
        }
        self.active_index = first as i32;
        self.push_undo(cursor)
    }
}


/// Where a word looked for turns up: its block, and where it starts and ends in the block,
/// counted the way Qt counts.
#[derive(Clone, Copy, Debug, PartialEq, Eq, Structural)]
pub struct Occurrence {
    pub block: i32,
    pub at: i32,
    pub end: i32,
}

impl DocumentRust {
    /// The writer's own switch for the checker. Reading overrules it while it lasts, so it is
    /// kept here rather than read back off the checker: it is what the checker comes back to.
    pub fn toggle_checking(&mut self, checker: &mut Checker) -> (look: LintLook)
        ensures
            *final(self) == (DocumentRust { checking: !old(self).checking, ..*old(self) }),
            final(checker).on == final(self).checking,
            final(checker).loaded == old(checker).loaded && final(checker).cache == old(checker).cache,
            final(checker).generation == old(checker).generation.wrapping_add(1),
            look == final(self).look(final(self).cursor_position),
    {
        let on = !self.checking;
        self.checking = on;
        set_checking(checker, on);
        self.refresh_lint()
    }

    /// Go into reading mode, or come back out of it. Going in, the block being edited is
    /// re-read, so that reading does not find the document moving underneath it; coming
    /// out, the editor is handed the cursor back where it stood. A selection running across
    /// blocks has no editors left to draw it with, so it goes; and the checker is quiet while
    /// the post is read through.
    pub fn toggle_reading(&mut self, checker: &mut Checker) -> (look: LintLook)
        requires
            old(self).wf(),
        ensures
            final(self).wf(),
            final(self).reading == !old(self).reading,
            final(self).selection_anchor == -1,
            !old(self).reading && old(self).active_index >= 0 ==> {
                let c = committed(old(self).block_texts(), old(self).gap_texts(), old(self).active_index as int);
                &&& final(self).block_texts() == c.0
                &&& final(self).gap_texts() == c.1
                &&& final(self).active_index == clamped(old(self).active_index as int, 0, c.0.len() - 1)
                &&& final(self).pending_cursor == old(self).pending_cursor
            },
            !old(self).reading && old(self).active_index < 0 ==> final(self).blocks == old(self).blocks
                && final(self).gaps == old(self).gaps && final(self).active_index == old(self).active_index
                && final(self).pending_cursor == old(self).pending_cursor,
            old(self).reading ==> final(self).blocks == old(self).blocks && final(self).gaps == old(self).gaps
                && final(self).active_index == old(self).active_index && final(self).pending_cursor
                == old(self).cursor_position,
            final(self).undo == old(self).undo && final(self).cursor_position == old(self).cursor_position,
            final(self).checking == old(self).checking,
            final(checker).on == (final(self).checking && !final(self).reading),
            *final(self) == (DocumentRust {
                blocks: final(self).blocks,
                gaps: final(self).gaps,
                active_index: final(self).active_index,
                pending_cursor: final(self).pending_cursor,
                selection_anchor: -1i32,
                reading: !old(self).reading,
                ..*old(self)
            }),
            final(checker).loaded == old(checker).loaded && final(checker).cache == old(checker).cache,
            final(checker).generation == old(checker).generation.wrapping_add(1),
            look == final(self).look(final(self).cursor_position),
    {
        let reading = !self.reading;
        if reading {
            self.recommit_active();
        } else {
            self.pending_cursor = self.cursor_position;
        }
        self.selection_anchor = -1;
        self.reading = reading;
        set_checking(checker, !reading && self.checking);
        self.refresh_lint()
    }

    /// Open the search bar, giving it the keyboard. The block being edited is re-read first:
    /// where a word turns up is worked out over the blocks as they will be once it is
    /// rendered again. A selection running across blocks is let go: what the search finds is
    /// the only thing under the cursor from here on.
    pub fn open_search(&mut self)
        requires
            old(self).wf(),
        ensures
            final(self).wf(),
            old(self).active_index >= 0 ==> {
                let c = committed(old(self).block_texts(), old(self).gap_texts(), old(self).active_index as int);
                &&& final(self).block_texts() == c.0
                &&& final(self).gap_texts() == c.1
                &&& final(self).active_index == clamped(old(self).active_index as int, 0, c.0.len() - 1)
            },
            old(self).active_index < 0 ==> final(self).blocks == old(self).blocks && final(self).gaps
                == old(self).gaps && final(self).active_index == old(self).active_index,
            final(self).selection_anchor == -1,
            !final(self).search_alone,
            final(self).search_active,
            *final(self) == (DocumentRust {
                blocks: final(self).blocks,
                gaps: final(self).gaps,
                active_index: final(self).active_index,
                selection_anchor: -1i32,
                search_alone: false,
                search_active: true,
                ..*old(self)
            }),
    {
        self.recommit_active();
        self.selection_anchor = -1;
        self.search_alone = false;
        self.search_active = true;
    }

    /// Close the search bar, leaving the cursor on the occurrence it walked to: it is usually
    /// the very thing the writer opened the search to type over.
    pub fn close_search(&mut self)
        ensures
            *final(self) == (DocumentRust {
                search_count: 0,
                search_choice: -1i32,
                search_at: -1i32,
                search_alone: false,
                search_active: false,
                ..*old(self)
            }),
    {
        self.search_count = 0;
        self.search_choice = -1;
        self.search_at = -1;
        self.search_alone = false;
        self.search_active = false;
    }

    /// Put `found` under the cursor, selected from its start to its end, with `count`
    /// occurrences in all and `choice` the one on show. With nothing found, nothing is
    /// selected. The serial moves last of all: an editor already standing in the block reads
    /// it to know to look again.
    pub fn show_occurrence(&mut self, found: Option<Occurrence>, count: i32, choice: i32) -> (look: LintLook)
        requires
            old(self).wf(),
        ensures
            final(self).wf(),
            final(self).search_count == count && final(self).search_choice == choice,
            final(self).blocks == old(self).blocks && final(self).gaps == old(self).gaps,
            match found {
                None => {
                    &&& *final(self) == (DocumentRust {
                        search_count: count,
                        search_choice: choice,
                        search_at: -1i32,
                        ..*old(self)
                    })
                    &&& look == LintLook::Unchanged
                },
                Some(o) => {
                    &&& final(self).search_at == o.at
                    &&& final(self).pending_cursor == o.end
                    &&& final(self).active_index == o.block
                    &&& !final(self).typing
                    &&& final(self).cursor_position == o.end
                    &&& undo_views(final(self).undo@) == refreshed(undo_views(old(self).undo@), final(self).recorded(o.end))
                    &&& final(self).search_serial == old(self).search_serial.wrapping_add(1)
                    &&& *final(self) == (DocumentRust {
                        search_count: count,
                        search_choice: choice,
                        search_at: o.at,
                        pending_cursor: o.end,
                        active_index: o.block,
                        typing: false,
                        cursor_position: o.end,
                        undo: final(self).undo,
                        search_serial: final(self).search_serial,
                        ..*old(self)
                    })
                    &&& look == final(self).look(o.end)
                },
            },
    {
        self.search_count = count;
        self.search_choice = choice;
        match found {
            None => {
                self.search_at = -1;
                LintLook::Unchanged
            },
            Some(o) => {
                self.search_at = o.at;
                self.pending_cursor = o.end;
                self.active_index = o.block;
                let look = self.refresh_undo(o.end);
                self.search_serial = self.search_serial.wrapping_add(1);
                look
            },
        }
    }

    /// Show the first occurrence of a word looked for afresh: `found`, out of `count`, the
    /// one numbered `choice`.
    pub fn search_for(&mut self, found: Option<Occurrence>, count: i32, choice: i32) -> (look: LintLook)
        requires
            old(self).wf(),
        ensures
            final(self).wf(),
            !final(self).search_alone,
            final(self).search_count == count && final(self).search_choice == choice,
            final(self).blocks == old(self).blocks && final(self).gaps == old(self).gaps,
            found is None ==> look == LintLook::Unchanged && *final(self) == (DocumentRust {
                search_count: count,
                search_choice: choice,
                search_at: -1i32,
                search_alone: false,
                ..*old(self)
            }),
            found matches Some(o) ==> look == final(self).look(o.end) && undo_views(final(self).undo@) == refreshed(
                undo_views(old(self).undo@),
                final(self).recorded(o.end),
            ) && *final(self) == (DocumentRust {
                search_count: count,
                search_choice: choice,
                search_at: o.at,
                pending_cursor: o.end,
                active_index: o.block,
                typing: false,
                cursor_position: o.end,
                undo: final(self).undo,
                search_serial: old(self).search_serial.wrapping_add(1),
                search_alone: false,
                ..*old(self)
            }),
    {
        self.search_alone = false;
        self.show_occurrence(found, count, choice)
    }

    /// Show the occurrence the walk came to, `walked`, out of `count`, the one numbered
    /// `choice`. A word that turns up once has nowhere to walk to: nothing moves, and the
    /// foot of the window says why.
    pub fn cycle_search(&mut self, walked: Option<Occurrence>, count: i32, choice: i32) -> (look: LintLook)
        requires
            old(self).wf(),
        ensures
            final(self).wf(),
            final(self).blocks == old(self).blocks && final(self).gaps == old(self).gaps,
            walked is None ==> *final(self) == (DocumentRust { search_alone: count == 1, ..*old(self) }) && look
                == LintLook::Unchanged,
            walked matches Some(o) ==> look == final(self).look(o.end) && undo_views(final(self).undo@) == refreshed(
                undo_views(old(self).undo@),
                final(self).recorded(o.end),
            ) && *final(self) == (DocumentRust {
                search_count: count,
                search_choice: choice,
                search_at: o.at,
                pending_cursor: o.end,
                active_index: o.block,
                typing: false,
                cursor_position: o.end,
                undo: final(self).undo,
                search_serial: old(self).search_serial.wrapping_add(1),
                ..*old(self)
            }),
    {
        match walked {
            Some(o) => self.show_occurrence(Some(o), count, choice),
            None => {
                self.search_alone = count == 1;
                LintLook::Unchanged
            },
        }
    }

    /// Start again on the blocks and gaps `segments` holds: nothing to undo, nothing typed,
    /// nothing saved past, and the cursor nowhere until it is put somewhere.
    pub fn reset_blocks(&mut self, segments: Segments)
        requires
            segments.blocks.len() >= 1,
            segments.blocks.len() < i32::MAX,
            segments.gaps.len() == segments.blocks.len() + 1,
        ensures
            final(self).wf(),
            final(self).block_texts() == views(segments.blocks@),
            final(self).gap_texts() == views(segments.gaps@),
            *final(self) == (DocumentRust {
                blocks: segments.blocks,
                gaps: segments.gaps,
                undo: final(self).undo,
                typing: false,
                revision: 0,
                saved_revision: 0,
                pending_cursor: -1i32,
                active_index: -1i32,
                ..*old(self)
            }),
            final(self).undo@.len() == 0,
    {
        let Segments { blocks, gaps } = segments;
        self.blocks = blocks;
        self.gaps = gaps;
        self.undo = Vec::new();
        self.typing = false;
        self.revision = 0;
        self.saved_revision = 0;
        self.pending_cursor = -1;
        self.active_index = -1;
    }

    /// Put the cursor where the last session left off, `remembered`, or at the end of the
    /// document when there is nothing remembered; held within the document either way.
    pub fn restore_position(&mut self, remembered: Option<i32>)
        requires
            old(self).wf(),
        ensures
            *final(self) == (DocumentRust { active_index: final(self).active_index, ..*old(self) }),
            final(self).active_index == clamped(
                match remembered {
                    Some(r) => r as int,
                    None => old(self).blocks.len() - 1,
                },
                0,
                old(self).blocks.len() - 1,
            ),
    {
        let last = self.blocks.len() as i32 - 1;
        let wanted = match remembered {
            Some(r) => r,
            None => last,
        };
        self.active_index = if wanted < 0 {
            0
        } else if wanted > last {
            last
        } else {
            wanted
        };
    }

    /// The document opened as `segments`, clean, with the cursor where the last session in
    /// the file left it (`remembered`), or at its end.
    pub fn opened(&mut self, segments: Segments, remembered: Option<i32>) -> (look: LintLook)
        requires
            segments.blocks.len() >= 1,
            segments.blocks.len() < i32::MAX,
            segments.gaps.len() == segments.blocks.len() + 1,
        ensures
            final(self).wf(),
            final(self).block_texts() == views(segments.blocks@),
            final(self).gap_texts() == views(segments.gaps@),
            !final(self).dirty && !final(self).typing,
            final(self).revision == 0 && final(self).saved_revision == 0,
            final(self).pending_cursor == -1,
            final(self).active_index == clamped(
                match remembered {
                    Some(r) => r as int,
                    None => segments.blocks.len() - 1,
                },
                0,
                segments.blocks.len() - 1,
            ),
            undo_views(final(self).undo@) == seq![final(self).recorded(-1i32)],
            *final(self) == (DocumentRust {
                blocks: final(self).blocks,
                gaps: final(self).gaps,
                undo: final(self).undo,
                typing: false,
                revision: 0,
                saved_revision: 0,
                dirty: false,
                pending_cursor: -1i32,
                active_index: final(self).active_index,
                cursor_position: -1i32,
                ..*old(self)
            }),
            look == final(self).look(-1i32),
    {
        self.reset_blocks(segments);
        self.dirty = false;
        self.restore_position(remembered);
        self.refresh_undo(-1)
    }
}


/// Committing block `index` leaves every other block in place relative to it: a block before
/// it keeps its row, and a block after it moves by the change in the count of rows.
proof fn lemma_committed_keeps_others(blocks: Seq<Seq<char>>, gaps: Seq<Seq<char>>, index: int, target: int)
    requires
        0 <= target < blocks.len(),
        target != index,
    ensures
        ({
            let c = committed(blocks, gaps, index);
            let moved = if index < target { target + c.2 } else { target };
            &&& 0 <= moved < c.0.len()
            &&& c.0[moved] == blocks[target]
        }),
{
    let c = committed(blocks, gaps, index);
    if 0 <= index < blocks.len() {
        if all_white(blocks[index]) {
            if blocks.len() > 1 {
                if index < target {
                    assert(blocks.remove(index)[target - 1] == blocks[target]);
                }
            }
        } else {
            let parts = segmented(blocks[index]).0;
            law_segments_rejoin(blocks[index]);
            if !((parts.len() == 1 && parts[0] == blocks[index]) || blocks.len() + parts.len() - 1 >= i32::MAX) {
                let front = blocks.subrange(0, index);
                let back = blocks.subrange(index + 1, blocks.len() as int);
                if index < target {
                    assert(c.0[target + parts.len() - 1] == back[target - index - 1]);
                } else {
                    assert(c.0[target] == front[target]);
                }
            }
        }
    }
}

/// Going to block `target` lands the cursor in the block that was `target` before the move:
/// where the block being left is re-read into more rows, or emptied and taken away, the
/// target moves by as many rows, whether that is forward or back. Only a target past either
/// end of the document is held at the end.
pub proof fn law_landing_is_the_target(doc: DocumentRust, target: i32)
    requires
        doc.wf(),
        0 <= target < doc.blocks.len(),
    ensures
        0 <= doc.landing(target) < doc.left_for(target).0.len(),
        doc.left_for(target).0[doc.landing(target)] == doc.block_texts()[target as int],
{
    if doc.leaves(target) {
        lemma_committed_keeps_others(doc.block_texts(), doc.gap_texts(), doc.active_index as int, target as int);
    }
}

} // verus!
