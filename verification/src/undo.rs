//! The undo engine: two ordered logs of inverse edits. A new entry may
//! coalesce with the log's top; every push clears the redo log. `undo`
//! applies a command's exact buffer-level inverse; `redo` replays its
//! forward effect through the buffer's normal mutation path.
use vstd::prelude::*;

verus! {

use vstd::utf8::*;
use vstd::std_specs::iter::IteratorSpec;
use crate::buffer::{Buffer, lemma_delete_span_wf, lemma_insert_span_wf};
use crate::codec::{
    lemma_encode_utf8_push,
    lemma_encode_utf8_len_ge,
    lemma_last_scalar,
    lemma_last_scalar_concat,
    lemma_first_scalar_concat,
    lemma_step_forward,
};

broadcast use vstd::utf8::group_utf8_lib;

/// Relies on `str::len`: the length in bytes of a string's UTF-8 form,
/// which for a real `String` always fits in `usize`.
#[verifier::external_body]
fn string_byte_len(s: &String) -> (n: usize)
    ensures
        n as int == encode_utf8(s@).len(),
{
    s.len()
}

/// An undo-log entry: the data needed to invert one edit.
pub enum Command {
    /// Cursor offset before the insert, and the inserted text.
    Insert((usize, String)),
    /// Cursor offset after the backward delete, and the removed bytes.
    DeleteBefore((usize, Vec<u8>)),
    /// Cursor offset of the forward delete, and the removed bytes.
    DeleteAfter((usize, Vec<u8>)),
    /// A save point; carries no data.
    Checkpoint,
}

/// The mathematical form of a command.
pub enum Cmd {
    Insert { at: int, text: Seq<char> },
    DeleteBefore { at: int, bytes: Seq<u8> },
    DeleteAfter { at: int, bytes: Seq<u8> },
    Checkpoint,
}

impl View for Command {
    type V = Cmd;

    open spec fn view(&self) -> Cmd {
        match self {
            Command::Insert((i, s)) => Cmd::Insert { at: *i as int, text: s@ },
            Command::DeleteBefore((i, b)) => Cmd::DeleteBefore { at: *i as int, bytes: b@ },
            Command::DeleteAfter((i, b)) => Cmd::DeleteAfter { at: *i as int, bytes: b@ },
            Command::Checkpoint => Cmd::Checkpoint,
        }
    }
}

/// Document content after undoing `c` from content `s`.
pub open spec fn undo_content(s: Seq<u8>, c: Cmd) -> Seq<u8> {
    match c {
        Cmd::Insert { at, text } => s.subrange(0, at) + s.subrange(
            at + encode_utf8(text).len(),
            s.len() as int,
        ),
        Cmd::DeleteBefore { at, bytes } => s.subrange(0, at) + bytes + s.subrange(
            at,
            s.len() as int,
        ),
        Cmd::DeleteAfter { at, bytes } => s.subrange(0, at) + bytes + s.subrange(
            at,
            s.len() as int,
        ),
        Cmd::Checkpoint => s,
    }
}

/// Cursor offset after undoing `c` from content `s` with cursor `cursor`.
pub open spec fn undo_cursor(s: Seq<u8>, cursor: int, c: Cmd) -> int {
    match c {
        Cmd::Insert { at, .. } => at,
        Cmd::DeleteBefore { at, bytes } => at + bytes.len(),
        Cmd::DeleteAfter { at, .. } => at,
        Cmd::Checkpoint => cursor,
    }
}

/// `c` is an exact inverse record for content `s`: its offsets are character
/// boundaries, and an insert record still matches the bytes it inserted.
pub open spec fn undo_ok(s: Seq<u8>, c: Cmd) -> bool {
    match c {
        Cmd::Insert { at, text } => {
            &&& 0 <= at
            &&& at + encode_utf8(text).len() <= s.len()
            &&& is_char_boundary(s, at)
            &&& is_char_boundary(s, at + encode_utf8(text).len())
            &&& s.subrange(at, at + encode_utf8(text).len()) == encode_utf8(text)
        },
        Cmd::DeleteBefore { at, bytes } => {
            &&& 0 <= at <= s.len()
            &&& is_char_boundary(s, at)
            &&& valid_utf8(bytes)
        },
        Cmd::DeleteAfter { at, bytes } => {
            &&& 0 <= at <= s.len()
            &&& is_char_boundary(s, at)
            &&& valid_utf8(bytes)
        },
        Cmd::Checkpoint => true,
    }
}

/// The whole undo log is applicable: its top is an exact inverse for the
/// current content, and the rest for each successively rewound content.
pub open spec fn undo_stack_ok(s: Seq<u8>, cmds: Seq<Cmd>) -> bool
    decreases cmds.len(),
{
    cmds.len() == 0 || (undo_ok(s, cmds.last()) && undo_stack_ok(
        undo_content(s, cmds.last()),
        cmds.drop_last(),
    ))
}

/// Document content after replaying `c` forward from content `s`.
pub open spec fn redo_content(s: Seq<u8>, c: Cmd) -> Seq<u8> {
    match c {
        Cmd::Insert { at, text } => s.subrange(0, at) + encode_utf8(text) + s.subrange(
            at,
            s.len() as int,
        ),
        Cmd::DeleteBefore { at, bytes } => s.subrange(0, at) + s.subrange(
            at + bytes.len(),
            s.len() as int,
        ),
        Cmd::DeleteAfter { at, bytes } => s.subrange(0, at) + s.subrange(
            at + bytes.len(),
            s.len() as int,
        ),
        Cmd::Checkpoint => s,
    }
}

/// Cursor offset after replaying `c` forward.
pub open spec fn redo_cursor(s: Seq<u8>, cursor: int, c: Cmd) -> int {
    match c {
        Cmd::Insert { at, text } => at + encode_utf8(text).len(),
        Cmd::DeleteBefore { at, .. } => at,
        Cmd::DeleteAfter { at, .. } => at,
        Cmd::Checkpoint => cursor,
    }
}

/// `c` can be replayed forward on content `s`: a delete record still
/// matches the bytes it is about to remove.
pub open spec fn redo_ok(s: Seq<u8>, c: Cmd) -> bool {
    match c {
        Cmd::Insert { at, text } => {
            &&& 0 <= at <= s.len()
            &&& is_char_boundary(s, at)
        },
        Cmd::DeleteBefore { at, bytes } => {
            &&& 0 <= at
            &&& at + bytes.len() <= s.len()
            &&& is_char_boundary(s, at)
            &&& is_char_boundary(s, at + bytes.len())
            &&& s.subrange(at, at + bytes.len()) == bytes
            &&& valid_utf8(bytes)
        },
        Cmd::DeleteAfter { at, bytes } => {
            &&& 0 <= at
            &&& at + bytes.len() <= s.len()
            &&& is_char_boundary(s, at)
            &&& is_char_boundary(s, at + bytes.len())
            &&& s.subrange(at, at + bytes.len()) == bytes
            &&& valid_utf8(bytes)
        },
        Cmd::Checkpoint => true,
    }
}

/// The whole redo log is replayable from the current content onward.
pub open spec fn redo_stack_ok(s: Seq<u8>, cmds: Seq<Cmd>) -> bool
    decreases cmds.len(),
{
    cmds.len() == 0 || (redo_ok(s, cmds.last()) && redo_stack_ok(
        redo_content(s, cmds.last()),
        cmds.drop_last(),
    ))
}

/// The coalescing rule: the result of pushing `c` onto undo log `u`.
/// Adjacent same-kind edits merge; a checkpoint top is replaced.
pub open spec fn push_merge(u: Seq<Cmd>, c: Cmd) -> Seq<Cmd> {
    if u.len() == 0 {
        u.push(c)
    } else {
        match (u.last(), c) {
            (Cmd::Insert { at: a1, text: t1 }, Cmd::Insert { at: a2, text: t2 }) => {
                if a1 + encode_utf8(t1).len() == a2 {
                    u.drop_last().push(Cmd::Insert { at: a1, text: t1 + t2 })
                } else {
                    u.push(c)
                }
            },
            (Cmd::DeleteBefore { at: a1, bytes: b1 }, Cmd::DeleteBefore { at: a2, bytes: b2 }) => {
                if a2 + b2.len() == a1 {
                    u.drop_last().push(Cmd::DeleteBefore { at: a2, bytes: b2 + b1 })
                } else {
                    u.push(c)
                }
            },
            (Cmd::DeleteAfter { at: a1, bytes: b1 }, Cmd::DeleteAfter { at: a2, bytes: b2 }) => {
                if a1 == a2 {
                    u.drop_last().push(Cmd::DeleteAfter { at: a1, bytes: b1 + b2 })
                } else {
                    u.push(c)
                }
            },
            (Cmd::Checkpoint, _) => u.drop_last().push(c),
            _ => u.push(c),
        }
    }
}

/// Undoing a command and then replaying it forward restores the content.
pub proof fn lemma_undo_redo(s: Seq<u8>, c: Cmd)
    requires
        undo_ok(s, c),
        valid_utf8(s),
    ensures
        redo_ok(undo_content(s, c), c),
        redo_content(undo_content(s, c), c) == s,
{
    let s1 = undo_content(s, c);
    match c {
        Cmd::Insert { at, text } => {
            let l = encode_utf8(text).len() as int;
            lemma_delete_span_wf(s, at, at + l);
            assert(redo_content(s1, c) =~= s);
        },
        Cmd::DeleteBefore { at, bytes } => {
            lemma_insert_span_wf(s, at, bytes);
            assert(s1.subrange(at, at + bytes.len()) =~= bytes);
            assert(redo_content(s1, c) =~= s);
        },
        Cmd::DeleteAfter { at, bytes } => {
            lemma_insert_span_wf(s, at, bytes);
            assert(s1.subrange(at, at + bytes.len()) =~= bytes);
            assert(redo_content(s1, c) =~= s);
        },
        Cmd::Checkpoint => {},
    }
}

/// Replaying a command forward and then undoing it restores the content.
pub proof fn lemma_redo_undo(s: Seq<u8>, c: Cmd)
    requires
        redo_ok(s, c),
        valid_utf8(s),
    ensures
        undo_ok(redo_content(s, c), c),
        undo_content(redo_content(s, c), c) == s,
{
    let s1 = redo_content(s, c);
    match c {
        Cmd::Insert { at, text } => {
            let e = encode_utf8(text);
            encode_utf8_valid_utf8(text);
            lemma_insert_span_wf(s, at, e);
            assert(s1.subrange(at, at + e.len()) =~= e);
            assert(undo_content(s1, c) =~= s);
        },
        Cmd::DeleteBefore { at, bytes } => {
            lemma_delete_span_wf(s, at, at + bytes.len());
            assert(undo_content(s1, c) =~= s);
        },
        Cmd::DeleteAfter { at, bytes } => {
            lemma_delete_span_wf(s, at, at + bytes.len());
            assert(undo_content(s1, c) =~= s);
        },
        Cmd::Checkpoint => {},
    }
}

/// The undo engine: an undo stack and a redo stack, both empty at creation.
pub struct UndoManager {
    pub undos: Vec<Command>,
    pub redos: Vec<Command>,
}

impl UndoManager {
    /// The undo log in mathematical form, oldest first.
    pub open spec fn undo_log(&self) -> Seq<Cmd> {
        self.undos@.map_values(|c: Command| c@)
    }

    /// The redo log in mathematical form, oldest first.
    pub open spec fn redo_log(&self) -> Seq<Cmd> {
        self.redos@.map_values(|c: Command| c@)
    }

    /// Creates an engine with both logs empty.
    pub fn new() -> (r: UndoManager)
        ensures
            r.undo_log() == Seq::<Cmd>::empty(),
            r.redo_log() == Seq::<Cmd>::empty(),
    {
        let r = UndoManager { undos: Vec::with_capacity(8), redos: Vec::with_capacity(8) };
        proof {
            assert(r.undo_log() =~= Seq::<Cmd>::empty());
            assert(r.redo_log() =~= Seq::<Cmd>::empty());
        }
        r
    }

    /// Pushes `cmd`, coalescing it with the stack top where the merge rules
    /// apply, and clears the redo stack.
    pub fn push(&mut self, cmd: Command)
        ensures
            final(self).undo_log() == push_merge(old(self).undo_log(), cmd@),
            final(self).redo_log() == Seq::<Cmd>::empty(),
    {
        let ghost u0 = self.undo_log();
        let ghost cv = cmd@;
        let top_opt = self.undos.pop();
        match top_opt {
            None => {
                self.undos.push(cmd);
                proof {
                    assert(self.undo_log() =~= push_merge(u0, cv));
                }
            },
            Some(top) => {
                match top {
                    Command::Insert((a1, t1)) => {
                        match cmd {
                            Command::Insert((a2, t2)) => {
                                let l1 = string_byte_len(&t1);
                                if a1 <= usize::MAX - l1 && a1 + l1 == a2 {
                                    let mut nt = t1;
                                    nt.append(t2.as_str());
                                    self.undos.push(Command::Insert((a1, nt)));
                                    proof {
                                        assert(self.undo_log() =~= push_merge(u0, cv));
                                    }
                                } else {
                                    self.undos.push(Command::Insert((a1, t1)));
                                    self.undos.push(Command::Insert((a2, t2)));
                                    proof {
                                        assert(self.undo_log() =~= push_merge(u0, cv));
                                    }
                                }
                            },
                            other => {
                                self.undos.push(Command::Insert((a1, t1)));
                                self.undos.push(other);
                                proof {
                                    assert(self.undo_log() =~= push_merge(u0, cv));
                                }
                            },
                        }
                    },
                    Command::DeleteBefore((a1, b1)) => {
                        match cmd {
                            Command::DeleteBefore((a2, b2)) => {
                                if a1 >= b2.len() && a2 == a1 - b2.len() {
                                    let mut nb = b2;
                                    let mut tl = b1;
                                    nb.append(&mut tl);
                                    self.undos.push(Command::DeleteBefore((a2, nb)));
                                    proof {
                                        assert(self.undo_log() =~= push_merge(u0, cv));
                                    }
                                } else {
                                    self.undos.push(Command::DeleteBefore((a1, b1)));
                                    self.undos.push(Command::DeleteBefore((a2, b2)));
                                    proof {
                                        assert(self.undo_log() =~= push_merge(u0, cv));
                                    }
                                }
                            },
                            other => {
                                self.undos.push(Command::DeleteBefore((a1, b1)));
                                self.undos.push(other);
                                proof {
                                    assert(self.undo_log() =~= push_merge(u0, cv));
                                }
                            },
                        }
                    },
                    Command::DeleteAfter((a1, b1)) => {
                        match cmd {
                            Command::DeleteAfter((a2, b2)) => {
                                if a1 == a2 {
                                    let mut nb = b1;
                                    let mut tl = b2;
                                    nb.append(&mut tl);
                                    self.undos.push(Command::DeleteAfter((a1, nb)));
                                    proof {
                                        assert(self.undo_log() =~= push_merge(u0, cv));
                                    }
                                } else {
                                    self.undos.push(Command::DeleteAfter((a1, b1)));
                                    self.undos.push(Command::DeleteAfter((a2, b2)));
                                    proof {
                                        assert(self.undo_log() =~= push_merge(u0, cv));
                                    }
                                }
                            },
                            other => {
                                self.undos.push(Command::DeleteAfter((a1, b1)));
                                self.undos.push(other);
                                proof {
                                    assert(self.undo_log() =~= push_merge(u0, cv));
                                }
                            },
                        }
                    },
                    Command::Checkpoint => {
                        self.undos.push(cmd);
                        proof {
                            assert(self.undo_log() =~= push_merge(u0, cv));
                        }
                    },
                }
            },
        }
        self.redos.clear();
        proof {
            assert(self.redo_log() =~= Seq::<Cmd>::empty());
        }
    }

    /// Pops the undo stack (no-op if empty), applies the command's exact
    /// buffer-level inverse, and moves the command to the redo stack.
    pub fn undo(&mut self, buf: &mut Buffer)
        requires
            old(buf).wf(),
            undo_stack_ok(old(buf).content(), old(self).undo_log()),
            redo_stack_ok(old(buf).content(), old(self).redo_log()),
        ensures
            final(buf).wf(),
            undo_stack_ok(final(buf).content(), final(self).undo_log()),
            redo_stack_ok(final(buf).content(), final(self).redo_log()),
            old(self).undo_log().len() == 0 ==> final(buf).content() == old(buf).content()
                && final(buf).iptr == old(buf).iptr && final(self).undo_log() == old(
                self,
            ).undo_log() && final(self).redo_log() == old(self).redo_log(),
            old(self).undo_log().len() > 0 ==> ({
                let top = old(self).undo_log().last();
                &&& final(self).undo_log() == old(self).undo_log().drop_last()
                &&& final(self).redo_log() == old(self).redo_log().push(top)
                &&& final(buf).content() == undo_content(old(buf).content(), top)
                &&& final(buf).iptr as int == undo_cursor(
                    old(buf).content(),
                    old(buf).iptr as int,
                    top,
                )
            }),
    {
        let ghost s = old(buf).content();
        let nb = buf.bytes.len();
        proof {
            assert(s.len() <= nb);
        }
        let popped = self.undos.pop();
        match popped {
            None => {
                proof {
                    assert(old(self).undo_log().len() == 0);
                }
            },
            Some(cmd) => {
                let ghost top = cmd@;
                proof {
                    assert(old(self).undo_log().last() == top);
                    assert(self.undo_log() =~= old(self).undo_log().drop_last());
                    assert(undo_ok(s, top));
                }
                match &cmd {
                    Command::Insert((prev, inserted)) => {
                        let n = inserted.as_str().len();
                        proof {
                            assert(encode_utf8(inserted@).len() <= s.len());
                            assert(n as int == encode_utf8(inserted@).len());
                        }
                        buf.revert_insert(*prev, n);
                    },
                    Command::DeleteBefore((prev, deleted)) => {
                        buf.revert_delete_before_ptr(*prev, deleted);
                    },
                    Command::DeleteAfter((prev, deleted)) => {
                        buf.revert_delete_after_ptr(*prev, deleted);
                    },
                    Command::Checkpoint => {},
                }
                self.redos.push(cmd);
                proof {
                    assert(buf.content() =~= undo_content(s, top));
                    assert(self.redo_log() =~= old(self).redo_log().push(top));
                    lemma_undo_redo(s, top);
                    assert(redo_content(buf.content(), top) == s);
                    assert(self.redo_log().last() == top);
                    assert(self.redo_log().drop_last() =~= old(self).redo_log());
                    assert(redo_stack_ok(s, old(self).redo_log()));
                    assert(redo_stack_ok(buf.content(), self.redo_log()));
                }
            },
        }
    }
    /// Pops the redo stack (no-op if empty), replays the command's forward
    /// effect through the buffer's normal mutation path, and returns the
    /// command to the undo stack.
    pub fn redo(&mut self, buf: &mut Buffer)
        requires
            old(buf).wf(),
            undo_stack_ok(old(buf).content(), old(self).undo_log()),
            redo_stack_ok(old(buf).content(), old(self).redo_log()),
            old(buf).bytes@.len() <= usize::MAX / 4,
            old(self).redo_log().len() > 0 ==> (old(self).redo_log().last() matches Cmd::Insert {
                at,
                text,
            } ==> 4 * encode_utf8(text).len() <= usize::MAX / 4),
        ensures
            final(buf).wf(),
            undo_stack_ok(final(buf).content(), final(self).undo_log()),
            redo_stack_ok(final(buf).content(), final(self).redo_log()),
            old(self).redo_log().len() == 0 ==> final(buf).content() == old(buf).content()
                && final(buf).iptr == old(buf).iptr && final(self).undo_log() == old(
                self,
            ).undo_log() && final(self).redo_log() == old(self).redo_log(),
            old(self).redo_log().len() > 0 ==> ({
                let top = old(self).redo_log().last();
                &&& final(self).redo_log() == old(self).redo_log().drop_last()
                &&& final(self).undo_log() == old(self).undo_log().push(top)
                &&& final(buf).content() == redo_content(old(buf).content(), top)
                &&& final(buf).iptr as int == redo_cursor(
                    old(buf).content(),
                    old(buf).iptr as int,
                    top,
                )
            }),
    {
        let ghost s = old(buf).content();
        let nb = buf.bytes.len();
        proof {
            assert(s.len() <= nb);
        }
        let popped = self.redos.pop();
        match popped {
            None => {
                proof {
                    assert(old(self).redo_log().len() == 0);
                }
            },
            Some(cmd) => {
                let ghost top = cmd@;
                proof {
                    assert(old(self).redo_log().last() == top);
                    assert(self.redo_log() =~= old(self).redo_log().drop_last());
                    assert(redo_ok(s, top));
                }
                match &cmd {
                    Command::Insert((prev, inserted)) => {
                        let at = *prev;
                        buf.jump(at);
                        let ghost tchars = inserted@;
                        let ghost enc_all = encode_utf8(tchars);
                        proof {
                            lemma_encode_utf8_len_ge(tchars);
                        }
                        let mut it = inserted.as_str().chars();
                        let mut done = false;
                        let ghost mut k: int = 0;
                        while !done
                            invariant
                                buf.wf(),
                                at as int <= s.len(),
                                is_char_boundary(s, at as int),
                                valid_utf8(s),
                                it.obeys_prophetic_iter_laws(),
                                0 <= k <= tchars.len(),
                                tchars.len() <= enc_all.len(),
                                enc_all == encode_utf8(tchars),
                                4 * enc_all.len() <= usize::MAX / 4,
                                it.remaining() == tchars.skip(k),
                                done ==> k == tchars.len(),
                                buf.content() == s.subrange(0, at as int) + encode_utf8(
                                    tchars.take(k),
                                ) + s.subrange(at as int, s.len() as int),
                                buf.iptr as int == at + encode_utf8(tchars.take(k)).len(),
                                buf.bytes@.len() <= usize::MAX / 2 || buf.gap_len >= 4
                                    * (tchars.len() - k),
                            decreases tchars.len() - k + (if done {
                                0int
                            } else {
                                1int
                            }),
                        {
                            let nx = it.next();
                            match nx {
                                None => {
                                    done = true;
                                    proof {
                                        assert(tchars.skip(k).len() == 0);
                                        assert(k == tchars.len());
                                    }
                                },
                                Some(c) => {
                                    proof {
                                        assert(tchars.skip(k).len() > 0);
                                        assert(c == tchars.skip(k)[0]);
                                        assert(c == tchars[k]);
                                        assert(it.remaining() =~= tchars.skip(k + 1));
                                    }
                                    buf.insert(c);
                                    proof {
                                        lemma_encode_utf8_push(tchars.take(k), c);
                                        assert(tchars.take(k + 1) =~= tchars.take(k).push(c));
                                        assert(buf.content() =~= s.subrange(0, at as int)
                                            + encode_utf8(tchars.take(k + 1)) + s.subrange(
                                            at as int,
                                            s.len() as int,
                                        ));
                                        lemma_encode_utf8_len_ge(tchars.take(k + 1));
                                        lemma_encode_utf8_push_prefix(tchars, k + 1);
                                        k = k + 1;
                                    }
                                },
                            }
                        }
                        proof {
                            assert(tchars.take(tchars.len() as int) =~= tchars);
                            assert(buf.content() =~= redo_content(s, top));
                        }
                    },
                    Command::DeleteBefore((prev, deleted)) => {
                        let at = *prev;
                        let dlen = deleted.len();
                        let ghost bts = deleted@;
                        buf.jump(at + dlen);
                        while buf.iptr > at
                            invariant
                                buf.wf(),
                                valid_utf8(s),
                                valid_utf8(bts),
                                bts.len() == dlen,
                                at + dlen <= s.len(),
                                is_char_boundary(s, at as int),
                                is_char_boundary(s, at + dlen),
                                s.subrange(at as int, at + dlen) == bts,
                                at <= buf.iptr <= at + dlen,
                                is_char_boundary(bts, buf.iptr - at),
                                buf.content() == s.subrange(0, at as int) + bts.subrange(
                                    0,
                                    buf.iptr - at,
                                ) + s.subrange(at + dlen, s.len() as int),
                            decreases buf.iptr,
                        {
                            let ghost r = buf.iptr - at;
                            let ghost pre = s.subrange(0, at as int);
                            let ghost taken = bts.subrange(0, r);
                            proof {
                                assert(valid_utf8(pre));
                                assert(valid_utf8(taken));
                                assert(taken.len() > 0);
                                lemma_last_scalar_concat(pre, taken);
                                lemma_last_scalar(taken);
                                let c_now = buf.content();
                                assert(c_now.subrange(0, buf.iptr as int) =~= pre + taken);
                            }
                            let res = buf.delete_before_ptr();
                            proof {
                                let l = length_of_last_scalar(pre + taken);
                                assert(l == length_of_last_scalar(taken));
                                assert(buf.iptr - at == r - l);
                                assert(!is_continuation_byte(bts[r - l]));
                                assert(is_char_boundary(bts, r - l));
                                assert(bts.subrange(0, r - l) =~= taken.subrange(0, r - l));
                                assert(buf.content() =~= s.subrange(0, at as int) + bts.subrange(
                                    0,
                                    r - l,
                                ) + s.subrange(at + dlen, s.len() as int));
                            }
                        }
                        proof {
                            assert(bts.subrange(0, 0) =~= Seq::<u8>::empty());
                            assert(buf.content() =~= redo_content(s, top));
                        }
                    },
                    Command::DeleteAfter((prev, deleted)) => {
                        let at = *prev;
                        let dlen = deleted.len();
                        let ghost bts = deleted@;
                        buf.jump(at);
                        let mut removed: usize = 0;
                        while removed < dlen
                            invariant
                                buf.wf(),
                                valid_utf8(s),
                                valid_utf8(bts),
                                bts.len() == dlen,
                                at + dlen <= s.len(),
                                is_char_boundary(s, at as int),
                                is_char_boundary(s, at + dlen),
                                s.subrange(at as int, at + dlen) == bts,
                                0 <= removed <= dlen,
                                buf.iptr == at,
                                is_char_boundary(bts, removed as int),
                                buf.content() == s.subrange(0, at as int) + bts.subrange(
                                    removed as int,
                                    dlen as int,
                                ) + s.subrange(at + dlen, s.len() as int),
                            decreases dlen - removed,
                        {
                            let ghost rem = bts.subrange(removed as int, dlen as int);
                            let ghost suf2 = s.subrange(at + dlen, s.len() as int);
                            proof {
                                assert(valid_utf8(rem));
                                assert(rem.len() > 0);
                                lemma_first_scalar_concat(rem, suf2);
                                let c_now = buf.content();
                                assert(c_now.subrange(at as int, c_now.len() as int) =~= rem
                                    + suf2);
                                assert((at as int) < c_now.len());
                            }
                            let res = buf.delete_after_ptr();
                            match res {
                                Some(v) => {
                                    proof {
                                        let l = length_of_first_scalar(rem + suf2);
                                        assert(l == length_of_first_scalar(rem));
                                        assert(l <= rem.len());
                                        lemma_step_forward(bts, removed as int);
                                        assert(length_of_first_scalar(
                                            bts.subrange(removed as int, bts.len() as int),
                                        ) == l) by {
                                            assert(bts.subrange(removed as int, bts.len() as int)
                                                =~= rem);
                                        }
                                        assert(is_char_boundary(bts, removed + l));
                                        assert(v@.len() == l);
                                        assert(buf.content() =~= s.subrange(0, at as int)
                                            + bts.subrange(removed + l, dlen as int) + s.subrange(
                                            at + dlen,
                                            s.len() as int,
                                        ));
                                    }
                                    removed = removed + v.len();
                                },
                                None => {
                                    proof {
                                        assert(false);
                                    }
                                },
                            }
                        }
                        proof {
                            assert(buf.content() =~= redo_content(s, top));
                        }
                    },
                    Command::Checkpoint => {},
                }
                self.undos.push(cmd);
                proof {
                    assert(buf.content() == redo_content(s, top));
                    lemma_redo_undo(s, top);
                    assert(self.undo_log() =~= old(self).undo_log().push(top));
                    assert(self.undo_log().last() == top);
                    assert(self.undo_log().drop_last() =~= old(self).undo_log());
                    assert(undo_stack_ok(buf.content(), self.undo_log()));
                    assert(redo_stack_ok(buf.content(), self.redo_log()));
                }
            },
        }
    }
}

/// The encoding of a concatenation is the concatenation of the encodings.
pub proof fn lemma_encode_utf8_concat(a: Seq<char>, b: Seq<char>)
    ensures
        encode_utf8(a + b) == encode_utf8(a) + encode_utf8(b),
    decreases a.len(),
{
    if a.len() == 0 {
        assert(a + b =~= b);
        assert(encode_utf8(a) + encode_utf8(b) =~= encode_utf8(b));
    } else {
        assert((a + b).drop_first() =~= a.drop_first() + b);
        lemma_encode_utf8_concat(a.drop_first(), b);
        assert((a + b)[0] == a[0]);
        assert(encode_utf8(a + b) =~= encode_utf8(a) + encode_utf8(b));
    }
}

/// The whole point of coalescing: pushing the exact inverse of an edit that
/// took content `s1` to content `s2`, with the merge rules applied, leaves
/// the whole undo log applicable to `s2`.
pub proof fn lemma_push_merge_ok(s1: Seq<u8>, s2: Seq<u8>, u: Seq<Cmd>, c: Cmd)
    requires
        valid_utf8(s1),
        valid_utf8(s2),
        undo_stack_ok(s1, u),
        undo_ok(s2, c),
        undo_content(s2, c) == s1,
    ensures
        undo_stack_ok(s2, push_merge(u, c)),
{
    broadcast use vstd::utf8::group_utf8_lib;

    if u.len() == 0 {
        let u2 = u.push(c);
        assert(u2.last() == c);
        assert(u2.drop_last() =~= u);
        assert(undo_stack_ok(s2, u2));
    } else {
        let t = u.last();
        assert(undo_ok(s1, t));
        match (t, c) {
            (Cmd::Insert { at: a1, text: t1 }, Cmd::Insert { at: a2, text: t2 }) => {
                let e1 = encode_utf8(t1);
                let e2 = encode_utf8(t2);
                if a1 + e1.len() == a2 {
                    lemma_encode_utf8_concat(t1, t2);
                    let em = encode_utf8(t1 + t2);
                    assert(em == e1 + e2);
                    let m = Cmd::Insert { at: a1, text: t1 + t2 };
                    // boundary at a1 transfers from s1 to s2
                    assert(forall|k: int| 0 <= k < a2 ==> s1[k] == s2[k]);
                    if e1.len() == 0 {
                        assert(a1 == a2);
                        assert(is_char_boundary(s2, a1));
                    } else {
                        assert(a1 < s1.len());
                        assert(!is_continuation_byte(s1[a1])) by {
                            is_char_boundary_iff_not_is_continuation_byte(s1, a1);
                        }
                        assert(s2[a1] == s1[a1]);
                        assert(is_char_boundary(s2, a1)) by {
                            is_char_boundary_iff_not_is_continuation_byte(s2, a1);
                        }
                    }
                    assert(s2.subrange(a1, a1 + em.len()) =~= em) by {
                        assert(s1.subrange(a1, a1 + e1.len()) == e1);
                        assert(forall|k: int|
                            0 <= k < e1.len() ==> #[trigger] em[k] == s1.subrange(
                                a1,
                                a1 + e1.len(),
                            )[k]);
                        assert(forall|k: int|
                            0 <= k < e2.len() ==> #[trigger] e2[k] == s2.subrange(
                                a2,
                                a2 + e2.len(),
                            )[k]);
                    }
                    assert(undo_ok(s2, m));
                    assert(undo_content(s2, m) =~= undo_content(s1, t));
                    let u2 = u.drop_last().push(m);
                    assert(u2.last() == m);
                    assert(u2.drop_last() =~= u.drop_last());
                    assert(undo_stack_ok(undo_content(s1, t), u.drop_last()));
                    assert(undo_stack_ok(s2, u2));
                } else {
                    let u2 = u.push(c);
                    assert(u2.last() == c);
                    assert(u2.drop_last() =~= u);
                    assert(undo_stack_ok(s2, u2));
                }
            },
            (Cmd::DeleteBefore { at: a1, bytes: b1 }, Cmd::DeleteBefore { at: a2, bytes: b2 }) => {
                if a2 + b2.len() == a1 {
                    let m = Cmd::DeleteBefore { at: a2, bytes: b2 + b1 };
                    assert(valid_utf8(b2 + b1));
                    assert(undo_ok(s2, m));
                    assert(undo_content(s2, m) =~= undo_content(s1, t)) by {
                        assert(s1 == s2.subrange(0, a2) + b2 + s2.subrange(a2, s2.len() as int));
                        assert(s1.subrange(0, a1) =~= s2.subrange(0, a2) + b2);
                        assert(s1.subrange(a1, s1.len() as int) =~= s2.subrange(
                            a2,
                            s2.len() as int,
                        ));
                    }
                    let u2 = u.drop_last().push(m);
                    assert(u2.last() == m);
                    assert(u2.drop_last() =~= u.drop_last());
                    assert(undo_stack_ok(s2, u2));
                } else {
                    let u2 = u.push(c);
                    assert(u2.last() == c);
                    assert(u2.drop_last() =~= u);
                    assert(undo_stack_ok(s2, u2));
                }
            },
            (Cmd::DeleteAfter { at: a1, bytes: b1 }, Cmd::DeleteAfter { at: a2, bytes: b2 }) => {
                if a1 == a2 {
                    let m = Cmd::DeleteAfter { at: a1, bytes: b1 + b2 };
                    assert(valid_utf8(b1 + b2));
                    assert(undo_ok(s2, m));
                    assert(undo_content(s2, m) =~= undo_content(s1, t)) by {
                        assert(s1 == s2.subrange(0, a2) + b2 + s2.subrange(a2, s2.len() as int));
                        assert(s1.subrange(0, a1) =~= s2.subrange(0, a2));
                        assert(s1.subrange(a1, s1.len() as int) =~= b2 + s2.subrange(
                            a2,
                            s2.len() as int,
                        ));
                    }
                    let u2 = u.drop_last().push(m);
                    assert(u2.last() == m);
                    assert(u2.drop_last() =~= u.drop_last());
                    assert(undo_stack_ok(s2, u2));
                } else {
                    let u2 = u.push(c);
                    assert(u2.last() == c);
                    assert(u2.drop_last() =~= u);
                    assert(undo_stack_ok(s2, u2));
                }
            },
            (Cmd::Checkpoint, _) => {
                let u2 = u.drop_last().push(c);
                assert(u2.last() == c);
                assert(u2.drop_last() =~= u.drop_last());
                assert(undo_content(s1, t) == s1);
                assert(undo_stack_ok(s2, u2));
            },
            _ => {
                let u2 = u.push(c);
                assert(u2.last() == c);
                assert(u2.drop_last() =~= u);
                assert(undo_stack_ok(s2, u2));
            },
        }
    }
}

/// Merging is associative for forward deletes at one offset: pushing two
/// spans one after the other coalesces to pushing their concatenation.
pub proof fn lemma_push_merge_delafter(u: Seq<Cmd>, o: int, x: Seq<u8>, y: Seq<u8>)
    ensures
        push_merge(push_merge(u, Cmd::DeleteAfter { at: o, bytes: x }), Cmd::DeleteAfter {
            at: o,
            bytes: y,
        }) == push_merge(u, Cmd::DeleteAfter { at: o, bytes: x + y }),
{
    let cx = Cmd::DeleteAfter { at: o, bytes: x };
    let cy = Cmd::DeleteAfter { at: o, bytes: y };
    let cxy = Cmd::DeleteAfter { at: o, bytes: x + y };
    let u1 = push_merge(u, cx);
    if u.len() == 0 {
        assert(u1 == u.push(cx));
        assert(u1.last() == cx);
        assert(u1.drop_last() =~= u);
        assert(push_merge(u1, cy) =~= push_merge(u, cxy));
    } else {
        match u.last() {
            Cmd::DeleteAfter { at: a1, bytes: b1 } => {
                if a1 == o {
                    let m1 = Cmd::DeleteAfter { at: o, bytes: b1 + x };
                    assert(u1 == u.drop_last().push(m1));
                    assert(u1.last() == m1);
                    assert(u1.drop_last() =~= u.drop_last());
                    assert((b1 + x) + y =~= b1 + (x + y));
                    assert(push_merge(u1, cy) =~= push_merge(u, cxy));
                } else {
                    assert(u1 == u.push(cx));
                    assert(u1.last() == cx);
                    assert(u1.drop_last() =~= u);
                    assert(push_merge(u1, cy) =~= push_merge(u, cxy));
                }
            },
            Cmd::Checkpoint => {
                assert(u1 == u.drop_last().push(cx));
                assert(u1.last() == cx);
                assert(u1.drop_last() =~= u.drop_last());
                assert(push_merge(u1, cy) =~= push_merge(u, cxy));
            },
            _ => {
                assert(u1 == u.push(cx));
                assert(u1.last() == cx);
                assert(u1.drop_last() =~= u);
                assert(push_merge(u1, cy) =~= push_merge(u, cxy));
            },
        }
    }
}

/// Encodings of prefixes never exceed the encoding of the whole sequence.
pub proof fn lemma_encode_utf8_push_prefix(cs: Seq<char>, k: int)
    requires
        0 <= k <= cs.len(),
    ensures
        encode_utf8(cs.take(k)).len() <= encode_utf8(cs).len(),
    decreases cs.len() - k,
{
    if k == cs.len() {
        assert(cs.take(k) =~= cs);
    } else {
        lemma_encode_utf8_push(cs.take(k), cs[k]);
        assert(cs.take(k + 1) =~= cs.take(k).push(cs[k]));
        lemma_encode_utf8_push_prefix(cs, k + 1);
    }
}

} // verus!
