//! The editor controller: one buffer, one undo engine, one search state,
//! four mode flags and a viewport offset, driven by abstract messages
//! through a single dispatch entry point.
use vstd::prelude::*;

verus! {

use vstd::utf8::*;
use crate::buffer::{Buffer, fwd_dest, back_dest, jump_dest, lemma_insert_span_wf};
use crate::codec::{
    lemma_encode_utf8_singleton,
    lemma_ascii_byte_boundary,
    lemma_step_forward,
    lemma_last_scalar,
    next_bnd,
    prev_bnd,
    lemma_next_bnd_at_boundary,
};
use crate::undo::{
    Command,
    Cmd,
    UndoManager,
    undo_content,
    undo_cursor,
    undo_ok,
    undo_stack_ok,
    redo_content,
    redo_cursor,
    redo_stack_ok,
    push_merge,
    lemma_push_merge_ok,
};
use crate::search::{ISearch, match_offsets, lemma_match_offsets_props, string_push_char};
use crate::representer::{Representer, Element, ElementType};

broadcast use vstd::utf8::group_utf8_lib;

/// An abstract input message for the editor.
#[derive(Clone, Copy, Debug, PartialEq, Eq)]
pub enum Message {
    Insert(char),
    InsertNewLine,
    InsertTab,
    DeleteUnderCursor,
    DeleteBeforeCursor,
    CutToEndOfLine,
    Undo,
    Redo,
    ForwardOneChar,
    BackwardOneChar,
    JumpToBeginningOfLine,
    JumpToEndOfLine,
    JumpToNextLine,
    JumpToPreviousLine,
    Save,
    UserManual,
    Search,
    Noop,
    Quit,
}

/// Bytes on the cursor's line before offset `i` (column, counted in bytes).
pub open spec fn col_of(s: Seq<u8>, i: int) -> int
    decreases i,
{
    if i <= 0 {
        0
    } else if s[i - 1] == 10 {
        0
    } else {
        1 + col_of(s, i - 1)
    }
}

/// Number of line breaks before offset `i` (row).
pub open spec fn row_of(s: Seq<u8>, i: int) -> int
    decreases i,
{
    if i <= 0 {
        0
    } else if s[i - 1] == 10 {
        1 + row_of(s, i - 1)
    } else {
        row_of(s, i - 1)
    }
}

/// Bytes from offset `i` to the next line break or the end of the document.
pub open spec fn line_len_from(s: Seq<u8>, i: int) -> int
    decreases s.len() - i,
    when i <= s.len()
{
    if i >= s.len() {
        0
    } else if s[i] == 10 {
        0
    } else {
        1 + line_len_from(s, i + 1)
    }
}

/// The editor's whole state in mathematical form.
#[verifier::ext_equal]
pub struct EdState {
    pub content: Seq<u8>,
    pub cursor: int,
    pub dirty: bool,
    pub saved: bool,
    pub popup: bool,
    pub prompt: bool,
    pub top: int,
    pub term: Seq<char>,
    pub ids: Seq<int>,
    pub cur_match: int,
    pub undos: Seq<Cmd>,
    pub redos: Seq<Cmd>,
}

/// Inserting one character at the cursor.
pub open spec fn ed_insert_char(st: EdState, c: char) -> EdState {
    let enc = encode_utf8(seq![c]);
    EdState {
        content: st.content.subrange(0, st.cursor) + enc + st.content.subrange(
            st.cursor,
            st.content.len() as int,
        ),
        cursor: st.cursor + enc.len(),
        dirty: true,
        undos: push_merge(st.undos, Cmd::Insert { at: st.cursor, text: seq![c] }),
        redos: Seq::empty(),
        ..st
    }
}

/// Deleting the codepoint before the cursor (no-op at the start, but the
/// document is still marked dirty).
pub open spec fn ed_delete_before(st: EdState) -> EdState {
    if st.cursor == 0 {
        EdState { dirty: true, ..st }
    } else {
        let l = length_of_last_scalar(st.content.subrange(0, st.cursor));
        let removed = st.content.subrange(st.cursor - l, st.cursor);
        EdState {
            content: st.content.subrange(0, st.cursor - l) + st.content.subrange(
                st.cursor,
                st.content.len() as int,
            ),
            cursor: st.cursor - l,
            dirty: true,
            undos: push_merge(
                st.undos,
                Cmd::DeleteBefore { at: st.cursor - l, bytes: removed },
            ),
            redos: Seq::empty(),
            ..st
        }
    }
}

/// Deleting the codepoint under the cursor (no-op at the end, but the
/// document is still marked dirty).
pub open spec fn ed_delete_after(st: EdState) -> EdState {
    if st.cursor == st.content.len() {
        EdState { dirty: true, ..st }
    } else {
        let l = length_of_first_scalar(st.content.subrange(st.cursor, st.content.len() as int));
        let removed = st.content.subrange(st.cursor, st.cursor + l);
        EdState {
            content: st.content.subrange(0, st.cursor) + st.content.subrange(
                st.cursor + l,
                st.content.len() as int,
            ),
            dirty: true,
            undos: push_merge(st.undos, Cmd::DeleteAfter { at: st.cursor, bytes: removed }),
            redos: Seq::empty(),
            ..st
        }
    }
}

/// Undoing the top log entry (no-op on an empty log).
pub open spec fn ed_undo(st: EdState) -> EdState {
    if st.undos.len() == 0 {
        st
    } else {
        let top = st.undos.last();
        EdState {
            content: undo_content(st.content, top),
            cursor: undo_cursor(st.content, st.cursor, top),
            undos: st.undos.drop_last(),
            redos: st.redos.push(top),
            ..st
        }
    }
}

/// Replaying the top redo entry (no-op on an empty log).
pub open spec fn ed_redo(st: EdState) -> EdState {
    if st.redos.len() == 0 {
        st
    } else {
        let top = st.redos.last();
        EdState {
            content: redo_content(st.content, top),
            cursor: redo_cursor(st.content, st.cursor, top),
            undos: st.undos.push(top),
            redos: st.redos.drop_last(),
            ..st
        }
    }
}

/// Saving: a checkpoint is pushed, the redo log cleared, and the flags set.
pub open spec fn ed_save(st: EdState) -> EdState {
    EdState {
        undos: push_merge(st.undos, Cmd::Checkpoint),
        redos: Seq::empty(),
        saved: true,
        dirty: false,
        ..st
    }
}

/// Jumping to the start of the cursor's line.
pub open spec fn ed_jump_bol(st: EdState) -> EdState {
    EdState { cursor: st.cursor - col_of(st.content, st.cursor), ..st }
}

/// Jumping to the end of the cursor's line.
pub open spec fn ed_jump_eol(st: EdState) -> EdState {
    EdState { cursor: st.cursor + line_len_from(st.content, st.cursor), ..st }
}

/// Jumping to the next line, keeping the column where possible.
pub open spec fn ed_next_line(st: EdState) -> EdState {
    let col = col_of(st.content, st.cursor);
    let e = st.cursor + line_len_from(st.content, st.cursor);
    if e == st.content.len() {
        EdState { cursor: e, ..st }
    } else {
        let s2 = e + 1;
        let l2 = line_len_from(st.content, s2);
        let step = if col < l2 {
            col
        } else {
            l2
        };
        EdState { cursor: next_bnd(st.content, s2 + step), ..st }
    }
}

/// Jumping to the previous line, keeping the column where possible.
pub open spec fn ed_prev_line(st: EdState) -> EdState {
    let col = col_of(st.content, st.cursor);
    let b = st.cursor - col;
    if b == 0 {
        EdState { cursor: 0, ..st }
    } else {
        let p = b - 1;
        let l0 = col_of(st.content, p);
        let step = if col < l0 {
            col
        } else {
            l0
        };
        EdState { cursor: prev_bnd(st.content, p - l0 + step), ..st }
    }
}

/// Cutting to the end of the line: the rest of the line is removed forward;
/// if the cursor then stands at column 0, one more codepoint is removed
/// backward to splice the emptied line into the previous one.
pub open spec fn ed_cut_eol(st: EdState) -> EdState {
    let fwd = line_len_from(st.content, st.cursor);
    let removed = st.content.subrange(st.cursor, st.cursor + fwd);
    let st1 = if fwd > 0 {
        EdState {
            content: st.content.subrange(0, st.cursor) + st.content.subrange(
                st.cursor + fwd,
                st.content.len() as int,
            ),
            dirty: true,
            undos: push_merge(st.undos, Cmd::DeleteAfter { at: st.cursor, bytes: removed }),
            redos: Seq::empty(),
            ..st
        }
    } else {
        st
    };
    if col_of(st1.content, st1.cursor) == 0 {
        ed_delete_before(st1)
    } else {
        st1
    }
}

/// Toggling the help popup.
pub open spec fn ed_toggle_popup(st: EdState) -> EdState {
    EdState { popup: !st.popup, ..st }
}

/// Toggling the search prompt; the search state is cleared either way.
pub open spec fn ed_toggle_prompt(st: EdState) -> EdState {
    EdState {
        prompt: !st.prompt,
        term: Seq::empty(),
        ids: Seq::empty(),
        cur_match: 0,
        ..st
    }
}

/// Editing the search term by one character and rescanning; the cursor
/// jumps to the first match when there is one, and an emptied term
/// deactivates the search.
pub open spec fn ed_prompt_input(st: EdState, d: Option<char>) -> EdState {
    let t1 = match d {
        Some(c) => st.term.push(c),
        None => if st.term.len() > 0 {
            st.term.drop_last()
        } else {
            st.term
        },
    };
    if t1.len() == 0 {
        EdState { term: Seq::empty(), ids: Seq::empty(), cur_match: 0, ..st }
    } else {
        let ms = match_offsets(st.content, encode_utf8(t1));
        let cur2 = if ms.len() > 0 {
            ms[0]
        } else {
            st.cursor
        };
        EdState { term: t1, ids: ms, cur_match: 0, cursor: cur2, ..st }
    }
}

/// Advancing cyclically to the next match and jumping there.
pub open spec fn ed_prompt_confirm(st: EdState) -> EdState {
    if st.ids.len() == 0 {
        st
    } else {
        let cm = (st.cur_match + 1) % (st.ids.len() as int);
        EdState { cur_match: cm, cursor: st.ids[cm], ..st }
    }
}

/// The new viewport top line for cursor row `row` and viewport height `h`.
pub open spec fn new_top(top: int, row: int, h: int) -> int {
    if row >= top + h {
        row
    } else if row < top {
        let t1 = if top >= h / 2 {
            top - h / 2
        } else {
            0
        };
        if t1 < row {
            t1
        } else {
            row
        }
    } else {
        top
    }
}

/// The dispatch contract: what one message does to the whole editor state.
pub open spec fn spec_update(st: EdState, m: Message) -> EdState {
    if st.popup {
        match m {
            Message::UserManual => ed_toggle_popup(st),
            _ => st,
        }
    } else {
        let st1 = EdState { saved: false, ..st };
        if st.prompt {
            match m {
                Message::InsertNewLine => ed_prompt_confirm(st1),
                Message::Insert(c) => ed_prompt_input(st1, Some(c)),
                Message::DeleteBeforeCursor => ed_prompt_input(st1, None),
                Message::Noop => st1,
                Message::Quit => st1,
                _ => ed_toggle_prompt(st1),
            }
        } else {
            match m {
                Message::InsertNewLine => ed_insert_char(st1, '\n'),
                Message::Insert(c) => ed_insert_char(st1, c),
                Message::InsertTab => ed_insert_char(
                    ed_insert_char(ed_insert_char(ed_insert_char(st1, ' '), ' '), ' '),
                    ' ',
                ),
                Message::DeleteUnderCursor => ed_delete_after(st1),
                Message::DeleteBeforeCursor => ed_delete_before(st1),
                Message::CutToEndOfLine => ed_cut_eol(st1),
                Message::Undo => ed_undo(st1),
                Message::Redo => ed_redo(st1),
                Message::ForwardOneChar => EdState {
                    cursor: fwd_dest(st1.content, st1.cursor),
                    ..st1
                },
                Message::BackwardOneChar => EdState {
                    cursor: back_dest(st1.content, st1.cursor),
                    ..st1
                },
                Message::JumpToBeginningOfLine => ed_jump_bol(st1),
                Message::JumpToEndOfLine => ed_jump_eol(st1),
                Message::JumpToNextLine => ed_next_line(st1),
                Message::JumpToPreviousLine => ed_prev_line(st1),
                Message::Save => ed_save(st1),
                Message::UserManual => ed_toggle_popup(st1),
                Message::Search => ed_toggle_prompt(st1),
                Message::Noop => st1,
                Message::Quit => st1,
            }
        }
    }
}

/// True when dispatching `m` in state `st` performs a save.
pub open spec fn save_performed(st: EdState, m: Message) -> bool {
    !st.popup && !st.prompt && m == Message::Save
}

/// The editor controller.
pub struct Editor {
    pub path: String,
    pub buffer: Buffer,
    pub isearch: ISearch,
    pub top: usize,
    pub undo_manager: UndoManager,
    pub dirty: bool,
    pub saved: bool,
    pub popup: bool,
    pub prompt: bool,
}

impl View for Editor {
    type V = EdState;

    open spec fn view(&self) -> EdState {
        EdState {
            content: self.buffer.content(),
            cursor: self.buffer.iptr as int,
            dirty: self.dirty,
            saved: self.saved,
            popup: self.popup,
            prompt: self.prompt,
            top: self.top as int,
            term: self.isearch.term@,
            ids: self.isearch.ids_int(),
            cur_match: self.isearch.current as int,
            undos: self.undo_manager.undo_log(),
            redos: self.undo_manager.redo_log(),
        }
    }
}

impl Editor {
    /// Well-formedness: the buffer is sound, both logs are applicable to
    /// the current content, the search state matches the content, and the
    /// search state is cleared whenever the prompt is closed.
    pub open spec fn wf(&self) -> bool {
        &&& self.buffer.wf()
        &&& undo_stack_ok(self.buffer.content(), self.undo_manager.undo_log())
        &&& redo_stack_ok(self.buffer.content(), self.undo_manager.redo_log())
        &&& self.isearch.ids_ok(self.buffer.content())
        &&& (!self.prompt ==> self.isearch.term@.len() == 0 && self.isearch.ids@.len() == 0
            && self.isearch.current == 0)
    }

    /// Machine limit under which every dispatch (including redo's replay
    /// through the growing insert path) stays within `usize` arithmetic.
    pub open spec fn room(&self) -> bool {
        &&& self.buffer.bytes@.len() <= usize::MAX / 4
        &&& (self.undo_manager.redo_log().len() > 0
            ==> (self.undo_manager.redo_log().last() matches Cmd::Insert { at, text } ==> 4
            * encode_utf8(text).len() <= usize::MAX / 4))
    }

    /// Creates an editor over the initial document text, cursor at offset 0.
    pub fn new(buffer: String, path: String) -> (r: Editor)
        ensures
            r.wf(),
            r@.content == encode_utf8(buffer@),
            r@.cursor == 0,
            !r@.dirty && !r@.saved && !r@.popup && !r@.prompt,
            r@.top == 0,
            r@.term == Seq::<char>::empty(),
            r@.ids == Seq::<int>::empty(),
            r@.undos == Seq::<Cmd>::empty(),
            r@.redos == Seq::<Cmd>::empty(),
            r.path == path,
    {
        let buffer = Buffer::init(buffer);
        let isearch = ISearch::new();
        let undo_manager = UndoManager::new();
        let r = Editor {
            path,
            buffer,
            isearch,
            top: 0,
            undo_manager,
            dirty: false,
            saved: false,
            popup: false,
            prompt: false,
        };
        proof {
            assert(r.isearch.ids_int() =~= Seq::<int>::empty());
        }
        r
    }

    /// The current search term.
    pub fn current_isearch_term(&self) -> (r: &String)
        ensures
            r@ == self.isearch.term@,
    {
        &self.isearch.term
    }

    /// True while the search prompt is open.
    pub fn is_prompted(&self) -> (r: bool)
        ensures
            r == self@.prompt,
    {
        self.prompt
    }

    /// True while the help popup is shown.
    pub fn is_in_manual_popup(&self) -> (r: bool)
        ensures
            r == self@.popup,
    {
        self.popup
    }

    /// True when the document has unsaved edits.
    pub fn is_modified(&self) -> (r: bool)
        ensures
            r == self@.dirty,
    {
        self.dirty
    }

    /// True only immediately after a save, until the next dispatch.
    pub fn is_saved(&self) -> (r: bool)
        ensures
            r == self@.saved,
    {
        self.saved
    }

    pub fn toggle_popup(&mut self)
        requires
            old(self).wf(),
        ensures
            final(self).wf(),
            final(self)@ == ed_toggle_popup(old(self)@),
    {
        self.popup = !self.popup;
        proof {
            assert(self@ =~= ed_toggle_popup(old(self)@));
        }
    }

    pub fn toggle_prompt(&mut self)
        requires
            old(self).wf(),
        ensures
            final(self).wf(),
            final(self)@ == ed_toggle_prompt(old(self)@),
    {
        self.prompt = !self.prompt;
        self.isearch.clear();
        proof {
            assert(self.isearch.ids_int() =~= Seq::<int>::empty());
            assert(self@ =~= ed_toggle_prompt(old(self)@));
        }
    }

    pub fn insert_char(&mut self, c: char)
        requires
            old(self).wf(),
            !old(self).prompt,
            old(self).buffer.bytes@.len() <= usize::MAX / 2,
        ensures
            final(self).wf(),
            final(self)@ == ed_insert_char(old(self)@, c),
            final(self).buffer.bytes@.len() <= 2 * old(self).buffer.bytes@.len(),
            final(self).buffer.bytes@.len() != old(self).buffer.bytes@.len()
                ==> old(self).buffer.gap_len < old(self).buffer.bytes@.len() / 4
                && final(self).buffer.gap_len + 4 >= old(self).buffer.bytes@.len(),
            final(self).buffer.bytes@.len() == old(self).buffer.bytes@.len()
                ==> final(self).buffer.gap_len + 4 >= old(self).buffer.gap_len,
            !final(self).prompt,
    {
        self.dirty = true;
        let prev_iptr = self.buffer.iptr;
        let ghost s1 = self.buffer.content();
        let ghost u0 = self.undo_manager.undo_log();
        self.buffer.insert(c);
        proof {
            lemma_encode_utf8_singleton(c);
        }
        let mut t = String::new();
        string_push_char(&mut t, c);
        proof {
            assert(t@ =~= seq![c]);
        }
        self.undo_manager.push(Command::Insert((prev_iptr, t)));
        proof {
            let s2 = self.buffer.content();
            let cmd = Cmd::Insert { at: prev_iptr as int, text: seq![c] };
            let enc = encode_utf8(seq![c]);
            lemma_insert_span_wf(s1, prev_iptr as int, enc);
            assert(s2.subrange(prev_iptr as int, prev_iptr + enc.len()) =~= enc);
            assert(undo_ok(s2, cmd));
            assert(undo_content(s2, cmd) =~= s1);
            lemma_push_merge_ok(s1, s2, u0, cmd);
            assert(self@ =~= ed_insert_char(old(self)@, c));
        }
    }

    pub fn delete_before_cursor(&mut self)
        requires
            old(self).wf(),
            !old(self).prompt,
        ensures
            final(self).wf(),
            final(self)@ == ed_delete_before(old(self)@),
            !final(self).prompt,
            final(self).buffer.bytes@.len() == old(self).buffer.bytes@.len(),
    {
        self.dirty = true;
        let ghost s1 = self.buffer.content();
        let ghost p0 = self.buffer.iptr as int;
        let ghost u0 = self.undo_manager.undo_log();
        let r = self.buffer.delete_before_ptr();
        match r {
            Some(bytes) => {
                let prev_iptr = self.buffer.iptr;
                proof {
                    let l = length_of_last_scalar(s1.subrange(0, p0));
                    let s2 = self.buffer.content();
                    lemma_last_scalar(s1.subrange(0, p0));
                    assert(valid_utf8(s1.subrange(0, p0)));
                    assert(valid_utf8(bytes@)) by {
                        assert(bytes@ =~= s1.subrange(0, p0).subrange(p0 - l, p0));
                    }
                    let cmd = Cmd::DeleteBefore { at: prev_iptr as int, bytes: bytes@ };
                    assert(undo_ok(s2, cmd));
                    assert(undo_content(s2, cmd) =~= s1);
                }
                self.undo_manager.push(Command::DeleteBefore((prev_iptr, bytes)));
                proof {
                    let s2 = self.buffer.content();
                    let cmd = Cmd::DeleteBefore {
                        at: self.buffer.iptr as int,
                        bytes: s1.subrange(p0 - length_of_last_scalar(s1.subrange(0, p0)), p0),
                    };
                    lemma_push_merge_ok(s1, s2, u0, cmd);
                    assert(self@ =~= ed_delete_before(old(self)@));
                }
            },
            None => {
                proof {
                    assert(self@ =~= ed_delete_before(old(self)@));
                }
            },
        }
    }

    pub fn delete_under_cursor(&mut self)
        requires
            old(self).wf(),
            !old(self).prompt,
        ensures
            final(self).wf(),
            final(self)@ == ed_delete_after(old(self)@),
            !final(self).prompt,
            final(self).buffer.bytes@.len() == old(self).buffer.bytes@.len(),
    {
        self.dirty = true;
        let ghost s1 = self.buffer.content();
        let ghost p0 = self.buffer.iptr as int;
        let ghost u0 = self.undo_manager.undo_log();
        let r = self.buffer.delete_after_ptr();
        match r {
            Some(bytes) => {
                let prev_iptr = self.buffer.iptr;
                proof {
                    let l = length_of_first_scalar(s1.subrange(p0, s1.len() as int));
                    let s2 = self.buffer.content();
                    lemma_step_forward(s1, p0);
                    assert(valid_utf8(bytes@)) by {
                        valid_utf8_split(s1, p0);
                        let suf = s1.subrange(p0, s1.len() as int);
                        if l < suf.len() {
                            assert(suf[l] == s1[p0 + l]);
                            assert(!is_continuation_byte(s1[p0 + l]));
                            is_char_boundary_iff_not_is_continuation_byte(suf, l);
                        } else {
                            is_char_boundary_start_end_of_seq(suf);
                        }
                        valid_utf8_split(suf, l);
                        assert(bytes@ =~= suf.subrange(0, l));
                    }
                    let cmd = Cmd::DeleteAfter { at: prev_iptr as int, bytes: bytes@ };
                    assert(undo_ok(s2, cmd));
                    assert(undo_content(s2, cmd) =~= s1);
                }
                self.undo_manager.push(Command::DeleteAfter((prev_iptr, bytes)));
                proof {
                    let s2 = self.buffer.content();
                    let cmd = Cmd::DeleteAfter {
                        at: p0,
                        bytes: s1.subrange(
                            p0,
                            p0 + length_of_first_scalar(s1.subrange(p0, s1.len() as int)),
                        ),
                    };
                    lemma_push_merge_ok(s1, s2, u0, cmd);
                    assert(self@ =~= ed_delete_after(old(self)@));
                }
            },
            None => {
                proof {
                    assert(self@ =~= ed_delete_after(old(self)@));
                }
            },
        }
    }

    pub fn undo(&mut self)
        requires
            old(self).wf(),
            !old(self).prompt,
        ensures
            final(self).wf(),
            final(self)@ == ed_undo(old(self)@),
            !final(self).prompt,
    {
        self.undo_manager.undo(&mut self.buffer);
        proof {
            assert(self@ =~= ed_undo(old(self)@));
        }
    }

    pub fn redo(&mut self)
        requires
            old(self).wf(),
            !old(self).prompt,
            old(self).buffer.bytes@.len() <= usize::MAX / 4,
            old(self).undo_manager.redo_log().len() > 0 ==> (old(
                self,
            ).undo_manager.redo_log().last() matches Cmd::Insert { at, text } ==> 4 * encode_utf8(
                text,
            ).len() <= usize::MAX / 4),
        ensures
            final(self).wf(),
            final(self)@ == ed_redo(old(self)@),
            !final(self).prompt,
    {
        self.undo_manager.redo(&mut self.buffer);
        proof {
            assert(self@ =~= ed_redo(old(self)@));
        }
    }

    /// Records a save: pushes a checkpoint, sets Saved, clears Dirty, and
    /// returns the exact byte sequence that must be written to disk.
    pub fn save(&mut self) -> (r: Vec<u8>)
        requires
            old(self).wf(),
            !old(self).prompt,
        ensures
            final(self).wf(),
            final(self)@ == ed_save(old(self)@),
            r@ == old(self)@.content,
            !final(self).prompt,
    {
        let out = self.buffer.content_vec();
        let ghost s1 = self.buffer.content();
        let ghost u0 = self.undo_manager.undo_log();
        self.undo_manager.push(Command::Checkpoint);
        self.saved = true;
        self.dirty = false;
        proof {
            lemma_push_merge_ok(s1, s1, u0, Cmd::Checkpoint);
            assert(self@ =~= ed_save(old(self)@));
        }
        out
    }

    pub fn forward_one_char(&mut self)
        requires
            old(self).wf(),
        ensures
            final(self).wf(),
            final(self)@ == (EdState { cursor: fwd_dest(old(self)@.content, old(self)@.cursor), ..old(
                self,
            )@ }),
    {
        self.buffer.move_ptr_forward();
        proof {
            assert(self@ =~= (EdState {
                cursor: fwd_dest(old(self)@.content, old(self)@.cursor),
                ..old(self)@
            }));
        }
    }

    pub fn backward_one_char(&mut self)
        requires
            old(self).wf(),
        ensures
            final(self).wf(),
            final(self)@ == (EdState { cursor: back_dest(old(self)@.content, old(self)@.cursor), ..old(
                self,
            )@ }),
    {
        self.buffer.move_ptr_backward();
        proof {
            assert(self@ =~= (EdState {
                cursor: back_dest(old(self)@.content, old(self)@.cursor),
                ..old(self)@
            }));
        }
    }

    /// Bytes on the cursor's line before the cursor.
    pub fn col_before(&self) -> (r: usize)
        requires
            self.buffer.wf(),
        ensures
            r as int == col_of(self.buffer.content(), self.buffer.iptr as int),
            r <= self.buffer.iptr,
    {
        let ghost s = self.buffer.content();
        let p0 = self.buffer.iptr;
        let mut j: usize = 0;
        while j < p0 && self.buffer.bytes[p0 - 1 - j] != 10u8
            invariant
                0 <= j <= p0,
                p0 == self.buffer.iptr,
                self.buffer.wf(),
                s == self.buffer.content(),
                col_of(s, p0 as int) == j + col_of(s, p0 - j),
                forall|k: int| 0 <= k < p0 ==> #[trigger] s[k] == self.buffer.bytes@[k],
            decreases p0 - j,
        {
            j += 1;
        }
        proof {
            if j < p0 {
                assert(s[p0 - 1 - j] == 10);
                assert(col_of(s, p0 - j) == 0);
            } else {
                assert(col_of(s, p0 - j) == 0);
            }
        }
        j
    }

    /// Bytes from the cursor to the next line break or the document end.
    pub fn line_fwd(&self) -> (r: usize)
        requires
            self.buffer.wf(),
        ensures
            r as int == line_len_from(self.buffer.content(), self.buffer.iptr as int),
            self.buffer.iptr + r <= self.buffer.content().len(),
    {
        let ghost s = self.buffer.content();
        let p0 = self.buffer.iptr;
        let g = self.buffer.gap_len;
        let nb = self.buffer.bytes.len();
        proof {
            assert(s.len() == nb - g);
            assert(forall|k: int|
                p0 <= k < s.len() ==> #[trigger] s[k] == self.buffer.bytes@[k + g]);
        }
        let mut j: usize = 0;
        while p0 + g + j < nb && self.buffer.bytes[p0 + g + j] != 10u8
            invariant
                0 <= j,
                p0 + j <= s.len(),
                p0 == self.buffer.iptr,
                g == self.buffer.gap_len,
                nb == self.buffer.bytes@.len(),
                self.buffer.wf(),
                s == self.buffer.content(),
                s.len() == nb - g,
                line_len_from(s, p0 as int) == j + line_len_from(s, p0 + j),
                forall|k: int| p0 <= k < s.len() ==> #[trigger] s[k] == self.buffer.bytes@[k + g],
            decreases s.len() - (p0 + j),
        {
            j += 1;
        }
        proof {
            if p0 + g + j < nb {
                assert(s[p0 + j] == 10);
                assert(line_len_from(s, p0 + j) == 0);
            } else {
                assert(p0 + j == s.len());
                assert(line_len_from(s, p0 + j) == 0);
            }
        }
        j
    }

    pub fn jump_to_bol(&mut self)
        requires
            old(self).wf(),
        ensures
            final(self).wf(),
            final(self)@ == ed_jump_bol(old(self)@),
    {
        let ghost s = self.buffer.content();
        let cols = self.col_before();
        let target = self.buffer.iptr - cols;
        proof {
            if cols < self.buffer.iptr {
                assert(col_of(s, self.buffer.iptr as int) == cols ==> s[target - 1] == 10) by {
                    lemma_col_newline(s, self.buffer.iptr as int);
                }
                lemma_ascii_byte_boundary(s, target - 1);
            }
        }
        self.buffer.jump(target);
        proof {
            assert(self@ =~= ed_jump_bol(old(self)@));
        }
    }

    pub fn jump_to_eol(&mut self)
        requires
            old(self).wf(),
        ensures
            final(self).wf(),
            final(self)@ == ed_jump_eol(old(self)@),
    {
        let ghost s = self.buffer.content();
        let cols = self.line_fwd();
        let nb = self.buffer.bytes.len();
        proof {
            assert(s.len() <= nb);
        }
        let target = self.buffer.iptr + cols;
        proof {
            if (target as int) < s.len() {
                lemma_line_end_newline(s, self.buffer.iptr as int);
                assert(s[target as int] == 10);
                lemma_ascii_byte_boundary(s, target as int);
            }
        }
        self.buffer.jump(target);
        proof {
            assert(self@ =~= ed_jump_eol(old(self)@));
        }
    }

    pub fn jump_to_next_line(&mut self)
        requires
            old(self).wf(),
        ensures
            final(self).wf(),
            final(self)@ == ed_next_line(old(self)@),
    {
        let ghost s = self.buffer.content();
        let ghost c0 = self.buffer.iptr as int;
        let col = self.col_before();
        self.jump_to_eol();
        let nb = self.buffer.bytes.len();
        if self.buffer.iptr + self.buffer.gap_len == nb {
            proof {
                assert(self@ =~= ed_next_line(old(self)@));
            }
            return ;
        }
        proof {
            let e = self.buffer.iptr as int;
            assert(e < s.len());
            lemma_line_end_newline(s, c0);
            assert(s[e] == 10);
            lemma_ascii_byte_boundary(s, e);
        }
        self.buffer.move_ptr_forward();
        proof {
            let suf = s.subrange(self.buffer.iptr - 1, s.len() as int);
            assert(suf[0] == 10);
        }
        let l2 = self.line_fwd();
        let step = if col < l2 {
            col
        } else {
            l2
        };
        let target = self.buffer.iptr + step;
        let ghost s2 = self.buffer.iptr as int;
        self.buffer.jump(target);
        proof {
            assert(jump_dest(s, s2, s2 + step) == next_bnd(s, s2 + step)) by {
                if step == 0 {
                    lemma_next_bnd_at_boundary(s, s2);
                }
            }
            assert(self@ =~= ed_next_line(old(self)@));
        }
    }

    pub fn jump_to_previous_line(&mut self)
        requires
            old(self).wf(),
        ensures
            final(self).wf(),
            final(self)@ == ed_prev_line(old(self)@),
    {
        let ghost s = self.buffer.content();
        let ghost c0 = self.buffer.iptr as int;
        let col = self.col_before();
        self.jump_to_bol();
        if self.buffer.iptr == 0 {
            proof {
                assert(self@ =~= ed_prev_line(old(self)@));
            }
            return ;
        }
        proof {
            let b = self.buffer.iptr as int;
            lemma_col_newline(s, c0);
            assert(s[b - 1] == 10);
            let pre = s.subrange(0, b);
            assert(pre.last() == 10);
            lemma_last_scalar(pre);
            assert(length_of_last_scalar(pre) == 1);
        }
        self.buffer.move_ptr_backward();
        let l0 = self.col_before();
        let step = if col < l0 {
            col
        } else {
            l0
        };
        let target = self.buffer.iptr - l0 + step;
        let ghost p = self.buffer.iptr as int;
        self.buffer.jump(target);
        proof {
            assert(jump_dest(s, p, p - l0 + step) == prev_bnd(s, p - l0 + step)) by {
                if l0 == step {
                    assert(prev_bnd(s, p) == p);
                }
            }
            assert(self@ =~= ed_prev_line(old(self)@));
        }
    }
}

impl Editor {
    pub fn insert_newline(&mut self)
        requires
            old(self).wf(),
            !old(self).prompt,
            old(self).buffer.bytes@.len() <= usize::MAX / 2,
        ensures
            final(self).wf(),
            final(self)@ == ed_insert_char(old(self)@, '\n'),
            !final(self).prompt,
    {
        self.insert_char('\n');
    }

    pub fn insert_tab(&mut self)
        requires
            old(self).wf(),
            !old(self).prompt,
            old(self).buffer.bytes@.len() <= usize::MAX / 4,
        ensures
            final(self).wf(),
            final(self)@ == ed_insert_char(
                ed_insert_char(ed_insert_char(ed_insert_char(old(self)@, ' '), ' '), ' '),
                ' ',
            ),
            !final(self).prompt,
    {
        self.insert_char(' ');
        proof {
            assert(self.buffer.bytes@.len() <= usize::MAX / 2 && (self.buffer.bytes@.len()
                > usize::MAX / 4 ==> self.buffer.gap_len + 4 >= self.buffer.bytes@.len() / 2));
        }
        self.insert_char(' ');
        proof {
            assert(self.buffer.bytes@.len() <= usize::MAX / 2 && (self.buffer.bytes@.len()
                > usize::MAX / 4 ==> self.buffer.gap_len + 8 >= self.buffer.bytes@.len() / 2));
        }
        self.insert_char(' ');
        proof {
            assert(self.buffer.bytes@.len() <= usize::MAX / 2 && (self.buffer.bytes@.len()
                > usize::MAX / 4 ==> self.buffer.gap_len + 12 >= self.buffer.bytes@.len() / 2));
        }
        self.insert_char(' ');
    }

    /// Removes the rest of the line forward of the cursor; if the cursor
    /// then stands at column 0, removes one more codepoint backward.
    pub fn cut_to_eol(&mut self)
        requires
            old(self).wf(),
            !old(self).prompt,
        ensures
            final(self).wf(),
            final(self)@ == ed_cut_eol(old(self)@),
            !final(self).prompt,
    {
        let ghost st0 = self@;
        let ghost s0 = self.buffer.content();
        let ghost c0 = self.buffer.iptr as int;
        let ghost u0 = self.undo_manager.undo_log();
        let ghost fwd0 = line_len_from(s0, c0);
        let c0x = self.buffer.iptr;
        proof {
            lemma_line_end_newline(s0, c0);
            lemma_line_len_nonneg(s0, c0);
        }
        let ghost mut d: int = 0;
        loop
            invariant
                self.wf(),
                !self.prompt,
                self.buffer.iptr == c0x,
                c0x as int == c0,
                0 <= d <= fwd0,
                st0 == old(self)@,
                s0 == st0.content,
                c0 == st0.cursor,
                u0 == st0.undos,
                valid_utf8(s0),
                is_char_boundary(s0, c0 + d),
                fwd0 == line_len_from(s0, c0),
                c0 + fwd0 <= s0.len(),
                c0 + fwd0 == s0.len() || s0[c0 + fwd0] == 10,
                line_len_from(s0, c0) == d + line_len_from(s0, c0 + d),
                self.buffer.content() == s0.subrange(0, c0) + s0.subrange(c0 + d, s0.len() as int),
                self@ == (if d == 0 {
                    st0
                } else {
                    EdState {
                        content: s0.subrange(0, c0) + s0.subrange(c0 + d, s0.len() as int),
                        dirty: true,
                        undos: push_merge(
                            u0,
                            Cmd::DeleteAfter { at: c0, bytes: s0.subrange(c0, c0 + d) },
                        ),
                        redos: Seq::<Cmd>::empty(),
                        ..st0
                    }
                }),
            ensures
                self.wf(),
                !self.prompt,
                self@ == (if fwd0 == 0 {
                    st0
                } else {
                    EdState {
                        content: s0.subrange(0, c0) + s0.subrange(c0 + fwd0, s0.len() as int),
                        dirty: true,
                        undos: push_merge(
                            u0,
                            Cmd::DeleteAfter { at: c0, bytes: s0.subrange(c0, c0 + fwd0) },
                        ),
                        redos: Seq::<Cmd>::empty(),
                        ..st0
                    }
                }),
                st0 == old(self)@,
                s0 == st0.content,
                c0 == st0.cursor,
                fwd0 == line_len_from(s0, c0),
            decreases s0.len() - (c0 + d),
        {
            let nb = self.buffer.bytes.len();
            let gp = self.buffer.gap_len;
            proof {
                assert(self.buffer.content().len() == nb - gp);
            }
            if c0x + gp == nb {
                proof {
                    assert(c0 + d == s0.len());
                    assert(line_len_from(s0, c0 + d) == 0);
                    assert(d == fwd0);
                }
                break ;
            }
            let b = self.buffer.bytes[c0x + gp];
            proof {
                assert(b == self.buffer.content()[c0]);
                assert(self.buffer.content()[c0] == s0[c0 + d]);
            }
            if b == 10u8 {
                proof {
                    assert(line_len_from(s0, c0 + d) == 0);
                    assert(d == fwd0);
                }
                break ;
            }
            let ghost stk = self@;
            let ghost ck = self.buffer.content();
            proof {
                assert(c0 + d < s0.len());
                lemma_line_len_nonneg(s0, c0 + d + 1);
                assert(line_len_from(s0, c0 + d) > 0);
            }
            self.delete_under_cursor();
            proof {
                let l = length_of_first_scalar(ck.subrange(c0, ck.len() as int));
                assert(ck.subrange(c0, ck.len() as int) =~= s0.subrange(c0 + d, s0.len() as int));
                lemma_step_forward_line(s0, c0 + d, l);
                assert(ck.subrange(c0, c0 + l) =~= s0.subrange(c0 + d, c0 + d + l));
                assert(self.buffer.content() =~= s0.subrange(0, c0) + s0.subrange(
                    c0 + d + l,
                    s0.len() as int,
                ));
                if d == 0 {
                } else {
                    crate::undo::lemma_push_merge_delafter(
                        u0,
                        c0,
                        s0.subrange(c0, c0 + d),
                        s0.subrange(c0 + d, c0 + d + l),
                    );
                    assert(s0.subrange(c0, c0 + d) + s0.subrange(c0 + d, c0 + d + l)
                        =~= s0.subrange(c0, c0 + d + l));
                }
                d = d + l;
                assert(self@ =~= (EdState {
                    content: s0.subrange(0, c0) + s0.subrange(c0 + d, s0.len() as int),
                    dirty: true,
                    undos: push_merge(
                        u0,
                        Cmd::DeleteAfter { at: c0, bytes: s0.subrange(c0, c0 + d) },
                    ),
                    redos: Seq::<Cmd>::empty(),
                    ..st0
                }));
            }
        }
        proof {
            let st1 = if fwd0 > 0 {
                EdState {
                    content: s0.subrange(0, c0) + s0.subrange(c0 + fwd0, s0.len() as int),
                    dirty: true,
                    undos: push_merge(
                        u0,
                        Cmd::DeleteAfter { at: c0, bytes: s0.subrange(c0, c0 + fwd0) },
                    ),
                    redos: Seq::<Cmd>::empty(),
                    ..st0
                }
            } else {
                st0
            };
            if fwd0 == 0 {
                assert(self.buffer.content() =~= s0);
                assert(self@ =~= st1);
            } else {
                assert(self@ =~= st1);
            }
        }
        let ghost st1v = self@;
        let colz = self.col_before();
        if colz == 0 {
            self.delete_before_cursor();
            proof {
                assert(self@ =~= ed_delete_before(st1v));
            }
        }
        proof {
            assert(self@ =~= ed_cut_eol(old(self)@));
        }
    }

    /// Feeds one character edit to the search engine and jumps to the
    /// reported match, if any.
    pub fn handle_search(&mut self, d: Option<char>)
        requires
            old(self).wf(),
            old(self).prompt,
        ensures
            final(self).wf(),
            final(self)@ == ed_prompt_input(old(self)@, d),
            final(self).prompt == old(self).prompt,
    {
        let ghost s = self.buffer.content();
        let r = self.isearch.run(&self.buffer, d);
        match r {
            Some(id) => {
                proof {
                    let t1 = self.isearch.term@;
                    let enc = encode_utf8(t1);
                    let ms = match_offsets(s, enc);
                    assert(t1.len() > 0);
                    crate::codec::lemma_encode_utf8_len_ge(t1);
                    assert(enc.len() > 0);
                    lemma_match_offsets_props(s, enc, 0);
                    assert(id as int == ms[0]);
                    assert(s.subrange(id as int, id + enc.len()) == enc);
                    crate::codec::lemma_valid_first_byte_not_cont(enc);
                    assert(s[id as int] == enc[0]);
                    assert(is_char_boundary(s, id as int)) by {
                        is_char_boundary_iff_not_is_continuation_byte(s, id as int);
                    }
                }
                self.buffer.jump(id);
            },
            None => {},
        }
        proof {
            assert(self@ =~= ed_prompt_input(old(self)@, d));
        }
    }

    /// Dispatch while the search prompt is open.
    pub fn match_isearch_buffer(&mut self, message: Message)
        requires
            old(self).wf(),
            old(self).prompt,
            !(message matches Message::Quit),
        ensures
            final(self).wf(),
            final(self)@ == (match message {
                Message::InsertNewLine => ed_prompt_confirm(old(self)@),
                Message::Insert(c) => ed_prompt_input(old(self)@, Some(c)),
                Message::DeleteBeforeCursor => ed_prompt_input(old(self)@, None),
                Message::Noop => old(self)@,
                Message::Quit => old(self)@,
                _ => ed_toggle_prompt(old(self)@),
            }),
    {
        match message {
            Message::InsertNewLine => {
                let ghost s = self.buffer.content();
                let r = self.isearch.fetch_next();
                match r {
                    Some(id) => {
                        proof {
                            let t1 = self.isearch.term@;
                            let enc = encode_utf8(t1);
                            let ms = match_offsets(s, enc);
                            assert(self.isearch.ids@.len() > 0);
                            assert(t1.len() > 0);
                            assert(self.isearch.ids_int() == ms);
                            crate::codec::lemma_encode_utf8_len_ge(t1);
                            lemma_match_offsets_props(s, enc, 0);
                            assert(id as int == ms[self.isearch.current as int]);
                            assert(s.subrange(id as int, id + enc.len()) == enc);
                            crate::codec::lemma_valid_first_byte_not_cont(enc);
                            assert(s[id as int] == enc[0]);
                            assert(is_char_boundary(s, id as int)) by {
                                is_char_boundary_iff_not_is_continuation_byte(s, id as int);
                            }
                        }
                        self.buffer.jump(id);
                    },
                    None => {},
                }
                proof {
                    assert(self@ =~= ed_prompt_confirm(old(self)@));
                }
            },
            Message::Insert(c) => {
                self.handle_search(Some(c));
            },
            Message::DeleteBeforeCursor => {
                self.handle_search(None);
            },
            Message::Noop => {},
            Message::Quit => {
                proof {
                    assert(false);
                }
            },
            _ => {
                self.toggle_prompt();
            },
        }
    }

    /// Dispatch in normal editing mode; returns the bytes to persist when
    /// the message was a save.
    pub fn match_editing_buffer(&mut self, message: Message) -> (r: Option<Vec<u8>>)
        requires
            old(self).wf(),
            !old(self).prompt,
            !(message matches Message::Quit),
            old(self).buffer.bytes@.len() <= usize::MAX / 4,
            old(self).undo_manager.redo_log().len() > 0 ==> (old(
                self,
            ).undo_manager.redo_log().last() matches Cmd::Insert { at, text } ==> 4 * encode_utf8(
                text,
            ).len() <= usize::MAX / 4),
        ensures
            final(self).wf(),
            final(self)@ == (match message {
                Message::InsertNewLine => ed_insert_char(old(self)@, '\n'),
                Message::Insert(c) => ed_insert_char(old(self)@, c),
                Message::InsertTab => ed_insert_char(
                    ed_insert_char(ed_insert_char(ed_insert_char(old(self)@, ' '), ' '), ' '),
                    ' ',
                ),
                Message::DeleteUnderCursor => ed_delete_after(old(self)@),
                Message::DeleteBeforeCursor => ed_delete_before(old(self)@),
                Message::CutToEndOfLine => ed_cut_eol(old(self)@),
                Message::Undo => ed_undo(old(self)@),
                Message::Redo => ed_redo(old(self)@),
                Message::ForwardOneChar => EdState {
                    cursor: fwd_dest(old(self)@.content, old(self)@.cursor),
                    ..old(self)@
                },
                Message::BackwardOneChar => EdState {
                    cursor: back_dest(old(self)@.content, old(self)@.cursor),
                    ..old(self)@
                },
                Message::JumpToBeginningOfLine => ed_jump_bol(old(self)@),
                Message::JumpToEndOfLine => ed_jump_eol(old(self)@),
                Message::JumpToNextLine => ed_next_line(old(self)@),
                Message::JumpToPreviousLine => ed_prev_line(old(self)@),
                Message::Save => ed_save(old(self)@),
                Message::UserManual => ed_toggle_popup(old(self)@),
                Message::Search => ed_toggle_prompt(old(self)@),
                Message::Noop => old(self)@,
                Message::Quit => old(self)@,
            }),
            message == Message::Save ==> (r matches Some(v) && v@ == old(self)@.content),
            message != Message::Save ==> r is None,
    {
        match message {
            Message::InsertNewLine => {
                self.insert_newline();
                None
            },
            Message::Insert(c) => {
                self.insert_char(c);
                None
            },
            Message::InsertTab => {
                self.insert_tab();
                None
            },
            Message::DeleteUnderCursor => {
                self.delete_under_cursor();
                None
            },
            Message::DeleteBeforeCursor => {
                self.delete_before_cursor();
                None
            },
            Message::CutToEndOfLine => {
                self.cut_to_eol();
                None
            },
            Message::Undo => {
                self.undo();
                None
            },
            Message::Redo => {
                self.redo();
                None
            },
            Message::ForwardOneChar => {
                self.forward_one_char();
                None
            },
            Message::BackwardOneChar => {
                self.backward_one_char();
                None
            },
            Message::JumpToBeginningOfLine => {
                self.jump_to_bol();
                None
            },
            Message::JumpToEndOfLine => {
                self.jump_to_eol();
                None
            },
            Message::JumpToNextLine => {
                self.jump_to_next_line();
                None
            },
            Message::JumpToPreviousLine => {
                self.jump_to_previous_line();
                None
            },
            Message::Save => {
                let out = self.save();
                Some(out)
            },
            Message::UserManual => {
                self.toggle_popup();
                None
            },
            Message::Search => {
                self.toggle_prompt();
                None
            },
            Message::Noop => None,
            Message::Quit => {
                proof {
                    assert(false);
                }
                None
            },
        }
    }

    /// The single dispatch entry point. Returns the exact byte sequence to
    /// persist when the message performed a save, and `None` otherwise.
    /// A quit message ends the caller's loop before dispatch, so it is
    /// excluded here; the in-reach arithmetic limits are machine bounds
    /// under which the growing insert path stays within `usize`.
    pub fn update(&mut self, message: Message) -> (r: Option<Vec<u8>>)
        requires
            old(self).wf(),
            old(self).room(),
            !(message matches Message::Quit),
        ensures
            final(self).wf(),
            final(self)@ == spec_update(old(self)@, message),
            save_performed(old(self)@, message) ==> (r matches Some(v) && v@ == old(
                self,
            )@.content),
            !save_performed(old(self)@, message) ==> r is None,
    {
        if self.is_in_manual_popup() {
            match message {
                Message::UserManual => {
                    self.toggle_popup();
                },
                _ => {},
            }
            proof {
                assert(self@ =~= spec_update(old(self)@, message));
            }
            None
        } else {
            self.saved = false;
            proof {
                assert(self@ =~= (EdState { saved: false, ..old(self)@ }));
            }
            if self.is_prompted() {
                self.match_isearch_buffer(message);
                proof {
                    assert(self@ =~= spec_update(old(self)@, message));
                }
                None
            } else {
                let r = self.match_editing_buffer(message);
                proof {
                    assert(self@ =~= spec_update(old(self)@, message));
                }
                r
            }
        }
    }

    /// The cursor position as (column, row), counted in bytes and lines.
    pub fn get_current_point(&self) -> (r: (usize, usize))
        requires
            self.buffer.wf(),
        ensures
            r.0 as int == col_of(self.buffer.content(), self.buffer.iptr as int),
            r.1 as int == row_of(self.buffer.content(), self.buffer.iptr as int),
    {
        let ghost s = self.buffer.content();
        let p0 = self.buffer.iptr;
        let mut cols: usize = 0;
        let mut rows: usize = 0;
        let mut j: usize = 0;
        proof {
            assert(forall|k: int| 0 <= k < p0 ==> #[trigger] s[k] == self.buffer.bytes@[k]);
        }
        while j < p0
            invariant
                0 <= j <= p0,
                p0 == self.buffer.iptr,
                self.buffer.wf(),
                s == self.buffer.content(),
                cols as int == col_of(s, j as int),
                rows as int == row_of(s, j as int),
                cols <= j,
                rows <= j,
                forall|k: int| 0 <= k < p0 ==> #[trigger] s[k] == self.buffer.bytes@[k],
            decreases p0 - j,
        {
            if self.buffer.bytes[j] == 10u8 {
                rows += 1;
                cols = 0;
            } else {
                cols += 1;
            }
            j += 1;
        }
        (cols, rows)
    }

    /// Recomputes the viewport top line from the cursor position and the
    /// viewport height, and returns the on-screen cursor cell.
    pub fn make_cursor_visible(&mut self, point: (usize, usize), height: usize) -> (r: (u16, u16))
        requires
            old(self).wf(),
        ensures
            final(self).wf(),
            final(self)@ == (EdState {
                top: new_top(old(self)@.top, point.1 as int, height as int),
                ..old(self)@
            }),
            point.0 <= u16::MAX ==> r.0 == point.0 as u16,
            point.1 >= final(self).top && point.1 - final(self).top <= u16::MAX ==> r.1 as int
                == point.1 - final(self).top,
    {
        let row = point.1;
        let h2 = height / 2;
        if row >= self.top && row - self.top >= height {
            self.top = row;
        } else if row < self.top {
            let t1 = if self.top >= h2 {
                self.top - h2
            } else {
                0
            };
            self.top = if t1 < row {
                t1
            } else {
                row
            };
        }
        proof {
            assert(self@ =~= (EdState {
                top: new_top(old(self)@.top, point.1 as int, height as int),
                ..old(self)@
            }));
        }
        let c = #[verifier::truncate] (point.0 as u16);
        let vr = if row >= self.top {
            row - self.top
        } else {
            0
        };
        let rr = #[verifier::truncate] (vr as u16);
        (c, rr)
    }
}

/// The first scalar after a non-break byte stays within the line: it adds
/// exactly its width to the scanned span.
pub proof fn lemma_step_forward_line(s: Seq<u8>, i: int, l: int)
    requires
        valid_utf8(s),
        is_char_boundary(s, i),
        0 <= i < s.len(),
        s[i] != 10,
        l == length_of_first_scalar(s.subrange(i, s.len() as int)),
    ensures
        i + l <= s.len(),
        is_char_boundary(s, i + l),
        line_len_from(s, i) == l + line_len_from(s, i + l),
        forall|k: int| i <= k < i + l ==> s[k] != 10,
    decreases l,
{
    broadcast use vstd::utf8::group_utf8_lib;

    lemma_step_forward(s, i);
    assert(forall|k: int| i < k < i + l ==> is_continuation_byte(s[k]));
    assert(forall|k: int| i <= k < i + l ==> s[k] != 10);
    lemma_line_len_block(s, i, i + l);
}

/// A block of non-break bytes adds its length to the line scan.
pub proof fn lemma_line_len_block(s: Seq<u8>, i: int, j: int)
    requires
        0 <= i <= j <= s.len(),
        forall|k: int| i <= k < j ==> s[k] != 10,
    ensures
        line_len_from(s, i) == (j - i) + line_len_from(s, j),
    decreases j - i,
{
    if i == j {
    } else {
        lemma_line_len_block(s, i + 1, j);
    }
}

/// Position reached after skipping `n` line breaks, scanning from `i`.
pub open spec fn skip_lines(s: Seq<u8>, n: int, i: int) -> int
    decreases s.len() - i,
    when 0 <= i <= s.len()
{
    if n <= 0 || i >= s.len() {
        i
    } else if s[i] == 10 {
        skip_lines(s, n - 1, i + 1)
    } else {
        skip_lines(s, n, i + 1)
    }
}

/// The skip stays in range; when it really skips, it either reaches the
/// end or lands just after a line break.
pub proof fn lemma_skip_lines_props(s: Seq<u8>, n: int, i: int)
    requires
        0 <= i <= s.len(),
    ensures
        i <= skip_lines(s, n, i) <= s.len(),
        n > 0 && i < s.len() ==> skip_lines(s, n, i) == s.len() || s[skip_lines(s, n, i) - 1]
            == 10,
        n > 0 && i < s.len() ==> skip_lines(s, n, i) >= i + 1,
    decreases s.len() - i,
{
    if n <= 0 || i >= s.len() {
    } else if s[i] == 10 {
        lemma_skip_lines_props(s, n - 1, i + 1);
        if n - 1 <= 0 || i + 1 >= s.len() {
            assert(skip_lines(s, n - 1, i + 1) == i + 1);
        }
    } else {
        lemma_skip_lines_props(s, n, i + 1);
        if i + 1 >= s.len() {
            assert(skip_lines(s, n, i + 1) == i + 1);
        }
    }
}

impl Editor {
    /// Scans from the document start past `n` line breaks and returns the
    /// offset reached, which is a character boundary.
    pub fn skip_lines_exec(&self, n: usize) -> (r: usize)
        requires
            self.buffer.wf(),
        ensures
            r as int == skip_lines(self.buffer.content(), n as int, 0),
            r <= self.buffer.content().len(),
            is_char_boundary(self.buffer.content(), r as int),
    {
        let ghost s = self.buffer.content();
        let g = self.buffer.gap_len;
        let ip = self.buffer.iptr;
        let nb = self.buffer.bytes.len();
        proof {
            assert(s.len() == nb - g);
        }
        let mut pos: usize = 0;
        let mut ln: usize = 0;
        while ln < n && pos < nb - g
            invariant
                self.buffer.wf(),
                s == self.buffer.content(),
                g == self.buffer.gap_len,
                ip == self.buffer.iptr,
                nb == self.buffer.bytes@.len(),
                s.len() == nb - g,
                0 <= pos <= s.len(),
                ln <= n,
                skip_lines(s, n as int, 0) == skip_lines(s, n - ln, pos as int),
            decreases s.len() - pos, n - ln,
        {
            let b = if pos < ip {
                self.buffer.bytes[pos]
            } else {
                self.buffer.bytes[pos + g]
            };
            proof {
                assert(b == s[pos as int]);
            }
            if b == 10u8 {
                ln += 1;
            }
            pos += 1;
        }
        proof {
            assert(skip_lines(s, n - ln, pos as int) == pos);
            lemma_skip_lines_props(s, n as int, 0);
            let r = skip_lines(s, n as int, 0);
            if n == 0 || s.len() == 0 {
                assert(r == 0);
            } else if r == s.len() {
                vstd::utf8::is_char_boundary_start_end_of_seq(s);
            } else {
                assert(s[r - 1] == 10);
                lemma_ascii_byte_boundary(s, r - 1);
            }
        }
        pos
    }

    /// Builds the display segments for the lines `[top, top + height)`:
    /// the segments' bytes are exactly the visible slice of the document,
    /// split at line breaks and at incremental-search matches.
    pub fn viewable_contents(&self, height: usize) -> (r: Representer)
        requires
            self.wf(),
            height > 0,
            self.top + height <= usize::MAX,
        ensures
            ({
                let s = self.buffer.content();
                let lo = skip_lines(s, self@.top, 0);
                let hi = skip_lines(s, self@.top + height, 0);
                r.bytes() == s.subrange(lo, hi)
            }),
            self@.ids.len() == 0 ==> forall|k: int|
                0 <= k < r.elements@.len() ==> (#[trigger] r.elements@[k].t) is Normal,
            forall|k: int|
                0 <= k < r.elements@.len() && !((#[trigger] r.elements@[k].t) is Normal)
                    ==> r.elements@[k].val@.len() <= encode_utf8(self@.term).len()
                    && r.elements@[k].val@ == encode_utf8(self@.term).take(
                    r.elements@[k].val@.len() as int,
                ),
    {
        let ghost s = self.buffer.content();
        let hay = self.buffer.content_vec();
        let clen = hay.len();
        let lo = self.skip_lines_exec(self.top);
        let hi = self.skip_lines_exec(self.top + height);
        proof {
            lemma_skip_lines_monotone(s, self@.top, self@.top + height, 0);
        }
        let tb = self.isearch.term.as_str().as_bytes_vec();
        let nlen = tb.len();
        let nids = self.isearch.ids.len();
        proof {
            if nids > 0 {
                assert(self.isearch.term@.len() > 0);
                let enc = encode_utf8(self.isearch.term@);
                lemma_match_offsets_props(s, enc, 0);
                crate::codec::lemma_encode_utf8_len_ge(self.isearch.term@);
            }
        }
        let mut rep = Representer::new();
        let mut cur = Element::default();
        let mut p = lo;
        let mut idx: usize = 0;
        while p < hi
            invariant
                self.wf(),
                s == self.buffer.content(),
                hay@ == s,
                clen == s.len(),
                lo <= p <= hi <= clen,
                nids == self.isearch.ids@.len(),
                nlen as int == encode_utf8(self.isearch.term@).len(),
                rep.bytes() + cur.val@ == s.subrange(lo as int, p as int),
                cur.t is Normal,
                idx <= nids,
                forall|k: int| 0 <= k < idx ==> #[trigger] self.isearch.ids@[k] < p,
                nids == 0 ==> forall|k: int|
                    0 <= k < rep.elements@.len() ==> (#[trigger] rep.elements@[k].t) is Normal,
                forall|k: int|
                    0 <= k < rep.elements@.len() && !((#[trigger] rep.elements@[k].t) is Normal)
                        ==> rep.elements@[k].val@.len() <= encode_utf8(self.isearch.term@).len()
                        && rep.elements@[k].val@ == encode_utf8(self.isearch.term@).take(
                        rep.elements@[k].val@.len() as int,
                    ),
            decreases hi - p,
        {
            while idx < nids && self.isearch.ids[idx] < p
                invariant
                    self.wf(),
                    nids == self.isearch.ids@.len(),
                    idx <= nids,
                    forall|k: int| 0 <= k < idx ==> #[trigger] self.isearch.ids@[k] < p,
                decreases nids - idx,
            {
                idx += 1;
            }
            if nids > 0 && idx < nids && self.isearch.ids[idx] == p {
                proof {
                    let enc = encode_utf8(self.isearch.term@);
                    lemma_match_offsets_props(s, enc, 0);
                    assert(self.isearch.ids_int()[idx as int] == p as int);
                    assert(p + nlen <= s.len());
                }
                if !cur.is_empty() {
                    rep.push(cur);
                    cur = Element::default();
                } else {
                    proof {
                        assert(rep.bytes() + cur.val@ =~= rep.bytes());
                    }
                }
                let mut seg = Element::isearch_type(idx == self.isearch.current);
                let stop = if p + nlen < hi {
                    p + nlen
                } else {
                    hi
                };
                let mut q = p;
                while q < stop
                    invariant
                        p <= q <= stop <= clen,
                        clen == s.len(),
                        hay@ == s,
                        seg.val@ == s.subrange(p as int, q as int),
                        seg.t == ElementType::IncrementalSearch(
                            idx == self.isearch.current,
                        ),
                    decreases stop - q,
                {
                    seg.push(hay[q]);
                    proof {
                        assert(seg.val@ =~= s.subrange(p as int, q + 1));
                    }
                    q += 1;
                }
                proof {
                    let enc = encode_utf8(self.isearch.term@);
                    assert(s.subrange(p as int, p + nlen) == enc);
                    assert(seg.val@ =~= enc.take(stop - p));
                }
                rep.push(seg);
                proof {
                    assert(s.subrange(lo as int, p as int) + s.subrange(p as int, stop as int)
                        =~= s.subrange(lo as int, stop as int));
                }
                cur = Element::default();
                p = stop;
                proof {
                    assert(rep.bytes() + cur.val@ =~= rep.bytes());
                    assert(rep.bytes() + cur.val@ =~= s.subrange(lo as int, p as int));
                }
            } else {
                let b = hay[p];
                let ghost pre = rep.bytes() + cur.val@;
                cur.push(b);
                proof {
                    assert(rep.bytes() + cur.val@ =~= pre.push(b));
                    assert(pre.push(b) =~= s.subrange(lo as int, p + 1));
                    assert(rep.bytes() + cur.val@ =~= s.subrange(lo as int, p + 1));
                }
                if b == 10u8 {
                    rep.push(cur);
                    cur = Element::default();
                    proof {
                        assert(rep.bytes() + cur.val@ =~= s.subrange(lo as int, p + 1));
                    }
                }
                p += 1;
            }
        }
        if !cur.is_empty() {
            rep.push(cur);
        } else {
            proof {
                assert(rep.bytes() + cur.val@ =~= rep.bytes());
            }
        }
        proof {
            assert(rep.bytes() =~= s.subrange(lo as int, hi as int));
        }
        rep
    }
}

/// Skipping more lines never lands earlier.
pub proof fn lemma_skip_lines_monotone(s: Seq<u8>, n1: int, n2: int, i: int)
    requires
        0 <= i <= s.len(),
        n1 <= n2,
    ensures
        skip_lines(s, n1, i) <= skip_lines(s, n2, i),
    decreases s.len() - i,
{
    if n1 <= 0 || i >= s.len() {
        lemma_skip_lines_props(s, n2, i);
    } else if s[i] == 10 {
        lemma_skip_lines_monotone(s, n1 - 1, n2 - 1, i + 1);
    } else {
        lemma_skip_lines_monotone(s, n1, n2, i + 1);
    }
}

/// Columns are never negative.
pub proof fn lemma_col_nonneg(s: Seq<u8>, i: int)
    ensures
        col_of(s, i) >= 0,
    decreases i,
{
    if i <= 0 {
    } else if s[i - 1] == 10 {
    } else {
        lemma_col_nonneg(s, i - 1);
    }
}

/// Line lengths are never negative.
pub proof fn lemma_line_len_nonneg(s: Seq<u8>, i: int)
    requires
        i <= s.len(),
    ensures
        line_len_from(s, i) >= 0,
    decreases s.len() - i,
{
    if i >= s.len() {
    } else if s[i] == 10 {
    } else {
        lemma_line_len_nonneg(s, i + 1);
    }
}

/// A positive column means the byte just before the line-start offset is a
/// line break.
pub proof fn lemma_col_newline(s: Seq<u8>, i: int)
    requires
        0 <= i,
    ensures
        col_of(s, i) < i ==> s[i - col_of(s, i) - 1] == 10,
        col_of(s, i) <= i,
    decreases i,
{
    if i <= 0 {
    } else if s[i - 1] == 10 {
    } else {
        lemma_col_newline(s, i - 1);
    }
}

/// The byte at the end-of-line offset is a line break when it is not the
/// end of the document.
pub proof fn lemma_line_end_newline(s: Seq<u8>, i: int)
    requires
        0 <= i <= s.len(),
    ensures
        i + line_len_from(s, i) <= s.len(),
        i + line_len_from(s, i) < s.len() ==> s[i + line_len_from(s, i)] == 10,
    decreases s.len() - i,
{
    if i >= s.len() {
    } else if s[i] == 10 {
    } else {
        lemma_line_end_newline(s, i + 1);
    }
}

} // verus!
