//! The library's global laws, stated and proved over the editor's
//! mathematical model: undoing a batch of edits restores the document,
//! every reachable buffer is valid UTF-8, a backward delete can be undone
//! by re-typing what it returned, and saving drives the mode flags.
use vstd::prelude::*;

verus! {

use vstd::utf8::*;
use crate::buffer::Buffer;
use crate::codec::{lemma_last_scalar, lemma_step_forward};
use crate::buffer::{lemma_delete_span_wf, lemma_insert_span_wf};
use crate::undo::{
    Cmd,
    undo_content,
    undo_cursor,
    undo_ok,
    undo_stack_ok,
    push_merge,
    lemma_encode_utf8_concat,
    lemma_push_merge_ok,
};
use crate::editor::{EdState, Message, spec_update, ed_insert_char, ed_delete_before,
    ed_delete_after, save_performed};

broadcast use vstd::utf8::group_utf8_lib;

/// Every reachable buffer state holds valid UTF-8 logical content, with the
/// insertion pointer on a character boundary of that content.
pub proof fn lemma_buffer_content_valid(b: Buffer)
    requires
        b.wf(),
    ensures
        valid_utf8(b.content()),
        is_char_boundary(b.content(), b.iptr as int),
{
}

/// Deleting the codepoint before the cursor and immediately re-inserting
/// the returned bytes character-by-character restores the original content
/// and cursor offset: the returned bytes decode to exactly one character,
/// and typing it at the post-delete cursor rebuilds the document.
pub proof fn lemma_delete_before_reinsert(s: Seq<u8>, cursor: int)
    requires
        valid_utf8(s),
        is_char_boundary(s, cursor),
        0 < cursor <= s.len(),
    ensures
        ({
            let l = length_of_last_scalar(s.subrange(0, cursor));
            let removed = s.subrange(cursor - l, cursor);
            let s1 = s.subrange(0, cursor - l) + s.subrange(cursor, s.len() as int);
            &&& valid_utf8(removed)
            &&& decode_utf8(removed).len() == 1
            &&& ({
                let c = decode_utf8(removed)[0];
                &&& s1.subrange(0, cursor - l) + encode_utf8(seq![c]) + s1.subrange(
                    cursor - l,
                    s1.len() as int,
                ) == s
                &&& cursor - l + encode_utf8(seq![c]).len() == cursor
            })
        }),
{
    let pre = s.subrange(0, cursor);
    assert(valid_utf8(pre));
    lemma_last_scalar(pre);
    let l = length_of_last_scalar(pre);
    let removed = s.subrange(cursor - l, cursor);
    assert(removed =~= pre.subrange(cursor - l, cursor));
    assert(valid_utf8(removed));
    assert(length_of_first_scalar(removed) == l);
    assert(pop_first_scalar(removed) =~= Seq::<u8>::empty());
    assert(decode_utf8(Seq::<u8>::empty()) =~= Seq::<char>::empty());
    assert(decode_utf8(removed) == seq![decode_first_scalar(removed) as char] + decode_utf8(
        pop_first_scalar(removed),
    ));
    assert(decode_utf8(removed).len() == 1);
    let c = decode_utf8(removed)[0];
    decode_utf8_encode_utf8(removed);
    assert(encode_utf8(decode_utf8(removed)) == removed);
    assert(decode_utf8(removed) =~= seq![c]);
    assert(encode_utf8(seq![c]) == removed);
    let s1 = s.subrange(0, cursor - l) + s.subrange(cursor, s.len() as int);
    assert(s1.subrange(0, cursor - l) =~= s.subrange(0, cursor - l));
    assert(s1.subrange(cursor - l, s1.len() as int) =~= s.subrange(cursor, s.len() as int));
    assert(s1.subrange(0, cursor - l) + encode_utf8(seq![c]) + s1.subrange(
        cursor - l,
        s1.len() as int,
    ) =~= s);
}

/// After a save the editor reports itself saved and unmodified.
pub proof fn lemma_save_sets_flags(st: EdState)
    requires
        !st.popup,
        !st.prompt,
    ensures
        spec_update(st, Message::Save).saved,
        !spec_update(st, Message::Save).dirty,
{
}

/// True for the primitive edit messages: single-character inserts and
/// single-codepoint deletes.
pub open spec fn is_basic_edit(m: Message) -> bool {
    match m {
        Message::Insert(c) => true,
        Message::InsertNewLine => true,
        Message::DeleteBeforeCursor => true,
        Message::DeleteUnderCursor => true,
        _ => false,
    }
}

/// The first edit dispatched after a save marks the document dirty again
/// and withdraws the just-saved indicator.
pub proof fn lemma_edit_flips_flags(st: EdState, m: Message)
    requires
        !st.popup,
        !st.prompt,
        is_basic_edit(m),
    ensures
        spec_update(st, m).dirty,
        !spec_update(st, m).saved,
{
}

/// The model state is sound: valid content, cursor on a boundary, and the
/// whole undo log applicable.
pub open spec fn st_ok(st: EdState) -> bool {
    &&& valid_utf8(st.content)
    &&& is_char_boundary(st.content, st.cursor)
    &&& 0 <= st.cursor <= st.content.len()
    &&& undo_stack_ok(st.content, st.undos)
}

/// Applying the undo log from top to bottom: the document and cursor it
/// rewinds to.
pub open spec fn rewind(s: Seq<u8>, cur: int, cmds: Seq<Cmd>) -> (Seq<u8>, int)
    decreases cmds.len(),
{
    if cmds.len() == 0 {
        (s, cur)
    } else {
        rewind(
            undo_content(s, cmds.last()),
            undo_cursor(s, cur, cmds.last()),
            cmds.drop_last(),
        )
    }
}

/// Pushing the exact inverse of an edit, with the merge rules applied,
/// does not change what the log rewinds to, and grows it by at most one.
pub proof fn lemma_push_merge_rewind(s1: Seq<u8>, cur1: int, s2: Seq<u8>, cur2: int, u: Seq<Cmd>, c: Cmd)
    requires
        valid_utf8(s1),
        valid_utf8(s2),
        undo_stack_ok(s1, u),
        undo_ok(s2, c),
        undo_content(s2, c) == s1,
        undo_cursor(s2, cur2, c) == cur1,
    ensures
        rewind(s2, cur2, push_merge(u, c)) == rewind(s1, cur1, u),
        push_merge(u, c).len() <= u.len() + 1,
{
    broadcast use vstd::utf8::group_utf8_lib;

    if u.len() == 0 {
        let u2 = u.push(c);
        assert(u2.last() == c);
        assert(u2.drop_last() =~= u);
    } else {
        let t = u.last();
        assert(undo_ok(s1, t));
        match (t, c) {
            (Cmd::Insert { at: a1, text: t1 }, Cmd::Insert { at: a2, text: t2 }) => {
                let e1 = encode_utf8(t1);
                let e2 = encode_utf8(t2);
                if a1 + e1.len() == a2 {
                    lemma_encode_utf8_concat(t1, t2);
                    let m = Cmd::Insert { at: a1, text: t1 + t2 };
                    let u2 = u.drop_last().push(m);
                    assert(u2.last() == m);
                    assert(u2.drop_last() =~= u.drop_last());
                    assert(undo_content(s2, m) =~= undo_content(s1, t));
                    assert(undo_cursor(s2, cur2, m) == a1);
                    assert(undo_cursor(s1, cur1, t) == a1);
                } else {
                    let u2 = u.push(c);
                    assert(u2.last() == c);
                    assert(u2.drop_last() =~= u);
                }
            },
            (Cmd::DeleteBefore { at: a1, bytes: b1 }, Cmd::DeleteBefore { at: a2, bytes: b2 }) => {
                if a2 + b2.len() == a1 {
                    let m = Cmd::DeleteBefore { at: a2, bytes: b2 + b1 };
                    let u2 = u.drop_last().push(m);
                    assert(u2.last() == m);
                    assert(u2.drop_last() =~= u.drop_last());
                    assert(undo_content(s2, m) =~= undo_content(s1, t)) by {
                        assert(s1 == s2.subrange(0, a2) + b2 + s2.subrange(a2, s2.len() as int));
                        assert(s1.subrange(0, a1) =~= s2.subrange(0, a2) + b2);
                        assert(s1.subrange(a1, s1.len() as int) =~= s2.subrange(
                            a2,
                            s2.len() as int,
                        ));
                    }
                    assert(undo_cursor(s2, cur2, m) == a2 + b2.len() + b1.len());
                    assert(undo_cursor(s1, cur1, t) == a1 + b1.len());
                } else {
                    let u2 = u.push(c);
                    assert(u2.last() == c);
                    assert(u2.drop_last() =~= u);
                }
            },
            (Cmd::DeleteAfter { at: a1, bytes: b1 }, Cmd::DeleteAfter { at: a2, bytes: b2 }) => {
                if a1 == a2 {
                    let m = Cmd::DeleteAfter { at: a1, bytes: b1 + b2 };
                    let u2 = u.drop_last().push(m);
                    assert(u2.last() == m);
                    assert(u2.drop_last() =~= u.drop_last());
                    assert(undo_content(s2, m) =~= undo_content(s1, t)) by {
                        assert(s1 == s2.subrange(0, a2) + b2 + s2.subrange(a2, s2.len() as int));
                        assert(s1.subrange(0, a1) =~= s2.subrange(0, a2));
                        assert(s1.subrange(a1, s1.len() as int) =~= b2 + s2.subrange(
                            a2,
                            s2.len() as int,
                        ));
                    }
                } else {
                    let u2 = u.push(c);
                    assert(u2.last() == c);
                    assert(u2.drop_last() =~= u);
                }
            },
            (Cmd::Checkpoint, _) => {
                let u2 = u.drop_last().push(c);
                assert(u2.last() == c);
                assert(u2.drop_last() =~= u.drop_last());
                assert(undo_content(s1, t) == s1);
                assert(undo_cursor(s1, cur1, t) == cur1);
            },
            _ => {
                let u2 = u.push(c);
                assert(u2.last() == c);
                assert(u2.drop_last() =~= u);
            },
        }
    }
}

/// One primitive edit keeps the model sound, stays in normal mode, leaves
/// what the undo log rewinds to untouched, and grows the log by at most 1.
pub proof fn lemma_edit_step(st: EdState, m: Message)
    requires
        st_ok(st),
        !st.popup,
        !st.prompt,
        is_basic_edit(m),
    ensures
        ({
            let st2 = spec_update(st, m);
            &&& st_ok(st2)
            &&& !st2.popup
            &&& !st2.prompt
            &&& rewind(st2.content, st2.cursor, st2.undos) == rewind(
                st.content,
                st.cursor,
                st.undos,
            )
            &&& st2.undos.len() <= st.undos.len() + 1
        }),
{
    broadcast use vstd::utf8::group_utf8_lib;

    let s = st.content;
    let cur = st.cursor;
    let st1 = EdState { saved: false, ..st };
    match m {
        Message::Insert(_) | Message::InsertNewLine => {
            let c = match m {
                Message::Insert(cc) => cc,
                _ => '\n',
            };
            let st2 = ed_insert_char(st1, c);
            let enc = encode_utf8(seq![c]);
            let cmd = Cmd::Insert { at: cur, text: seq![c] };
            lemma_insert_span_wf(s, cur, enc);
            let s2 = st2.content;
            assert(s2.subrange(cur, cur + enc.len()) =~= enc);
            assert(undo_ok(s2, cmd));
            assert(undo_content(s2, cmd) =~= s);
            assert(undo_cursor(s2, st2.cursor, cmd) == cur);
            lemma_push_merge_ok(s, s2, st.undos, cmd);
            lemma_push_merge_rewind(s, cur, s2, st2.cursor, st.undos, cmd);
            assert(spec_update(st, m) == st2);
        },
        Message::DeleteBeforeCursor => {
            let st2 = ed_delete_before(st1);
            if cur == 0 {
                assert(st2.undos == st.undos);
                assert(st2.content == s && st2.cursor == cur);
            } else {
                let pre = s.subrange(0, cur);
                lemma_last_scalar(pre);
                let l = length_of_last_scalar(pre);
                let removed = s.subrange(cur - l, cur);
                let cmd = Cmd::DeleteBefore { at: cur - l, bytes: removed };
                assert(valid_utf8(removed)) by {
                    assert(removed =~= pre.subrange(cur - l, cur));
                }
                lemma_delete_span_wf(s, cur - l, cur);
                let s2 = st2.content;
                assert(undo_ok(s2, cmd));
                assert(undo_content(s2, cmd) =~= s);
                assert(undo_cursor(s2, st2.cursor, cmd) == cur);
                lemma_push_merge_ok(s, s2, st.undos, cmd);
                lemma_push_merge_rewind(s, cur, s2, st2.cursor, st.undos, cmd);
            }
            assert(spec_update(st, m) == st2);
        },
        Message::DeleteUnderCursor => {
            let st2 = ed_delete_after(st1);
            if cur == s.len() {
                assert(st2.undos == st.undos);
            } else {
                lemma_step_forward(s, cur);
                let l = length_of_first_scalar(s.subrange(cur, s.len() as int));
                let removed = s.subrange(cur, cur + l);
                let cmd = Cmd::DeleteAfter { at: cur, bytes: removed };
                assert(valid_utf8(removed)) by {
                    let suf = s.subrange(cur, s.len() as int);
                    if l < suf.len() {
                        assert(suf[l] == s[cur + l]);
                        is_char_boundary_iff_not_is_continuation_byte(suf, l);
                    } else {
                        is_char_boundary_start_end_of_seq(suf);
                    }
                    valid_utf8_split(suf, l);
                    assert(removed =~= suf.subrange(0, l));
                }
                lemma_delete_span_wf(s, cur, cur + l);
                let s2 = st2.content;
                assert(undo_ok(s2, cmd));
                assert(undo_content(s2, cmd) =~= s);
                assert(undo_cursor(s2, st2.cursor, cmd) == cur);
                lemma_push_merge_ok(s, s2, st.undos, cmd);
                lemma_push_merge_rewind(s, cur, s2, st2.cursor, st.undos, cmd);
            }
            assert(spec_update(st, m) == st2);
        },
        _ => {},
    }
}

/// One undo keeps the model sound and performs exactly one rewind step.
pub proof fn lemma_undo_step(st: EdState)
    requires
        st_ok(st),
        !st.popup,
        !st.prompt,
    ensures
        ({
            let st2 = spec_update(st, Message::Undo);
            &&& st_ok(st2)
            &&& !st2.popup
            &&& !st2.prompt
            &&& rewind(st2.content, st2.cursor, st2.undos) == rewind(
                st.content,
                st.cursor,
                st.undos,
            )
            &&& (st.undos.len() == 0 ==> st2.content == st.content && st2.cursor == st.cursor
                && st2.undos.len() == 0)
            &&& (st.undos.len() > 0 ==> st2.undos.len() == st.undos.len() - 1)
        }),
{
    broadcast use vstd::utf8::group_utf8_lib;

    let st2 = spec_update(st, Message::Undo);
    if st.undos.len() == 0 {
    } else {
        let top = st.undos.last();
        assert(undo_ok(st.content, top));
        let s2 = undo_content(st.content, top);
        match top {
            Cmd::Insert { at, text } => {
                lemma_delete_span_wf(st.content, at, at + encode_utf8(text).len());
            },
            Cmd::DeleteBefore { at, bytes } => {
                lemma_insert_span_wf(st.content, at, bytes);
            },
            Cmd::DeleteAfter { at, bytes } => {
                lemma_insert_span_wf(st.content, at, bytes);
            },
            Cmd::Checkpoint => {},
        }
        assert(valid_utf8(s2) && is_char_boundary(s2, undo_cursor(st.content, st.cursor, top)));
    }
}

/// Applying a sequence of messages, one dispatch after the other.
pub open spec fn apply_msgs(st: EdState, ops: Seq<Message>) -> EdState
    decreases ops.len(),
{
    if ops.len() == 0 {
        st
    } else {
        apply_msgs(spec_update(st, ops[0]), ops.drop_first())
    }
}

/// Dispatching `n` undo messages in a row.
pub open spec fn apply_undos(st: EdState, n: int) -> EdState
    decreases n,
{
    if n <= 0 {
        st
    } else {
        apply_undos(spec_update(st, Message::Undo), n - 1)
    }
}

proof fn lemma_apply_edits(st: EdState, ops: Seq<Message>)
    requires
        st_ok(st),
        !st.popup,
        !st.prompt,
        forall|i: int| 0 <= i < ops.len() ==> is_basic_edit(#[trigger] ops[i]),
    ensures
        ({
            let st2 = apply_msgs(st, ops);
            &&& st_ok(st2)
            &&& !st2.popup
            &&& !st2.prompt
            &&& rewind(st2.content, st2.cursor, st2.undos) == rewind(
                st.content,
                st.cursor,
                st.undos,
            )
            &&& st2.undos.len() <= st.undos.len() + ops.len()
        }),
    decreases ops.len(),
{
    if ops.len() == 0 {
    } else {
        lemma_edit_step(st, ops[0]);
        let stm = spec_update(st, ops[0]);
        assert(forall|i: int|
            0 <= i < ops.drop_first().len() ==> is_basic_edit(#[trigger] ops.drop_first()[i]));
        lemma_apply_edits(stm, ops.drop_first());
    }
}

proof fn lemma_apply_undos(st: EdState, n: int)
    requires
        st_ok(st),
        !st.popup,
        !st.prompt,
        st.undos.len() <= n,
    ensures
        ({
            let st2 = apply_undos(st, n);
            (st2.content, st2.cursor) == rewind(st.content, st.cursor, st.undos)
        }),
    decreases n,
{
    if n <= 0 {
    } else {
        lemma_undo_step(st);
        let stm = spec_update(st, Message::Undo);
        lemma_apply_undos(stm, n - 1);
    }
}

/// For any sequence of single-character inserts and single-codepoint
/// deletes dispatched from a state with an empty undo log, following them
/// with the same number of undos returns the document content and the
/// cursor offset exactly to their values before the sequence.
pub proof fn lemma_edits_then_undos_restore(st: EdState, ops: Seq<Message>)
    requires
        st_ok(st),
        !st.popup,
        !st.prompt,
        st.undos.len() == 0,
        forall|i: int| 0 <= i < ops.len() ==> is_basic_edit(#[trigger] ops[i]),
    ensures
        ({
            let stf = apply_undos(apply_msgs(st, ops), ops.len() as int);
            &&& stf.content == st.content
            &&& stf.cursor == st.cursor
        }),
{
    lemma_apply_edits(st, ops);
    let st1 = apply_msgs(st, ops);
    lemma_apply_undos(st1, ops.len() as int);
}

} // verus!
