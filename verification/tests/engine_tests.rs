use gapedit::buffer::Buffer;
use gapedit::editor::{Editor, Message};
use gapedit::search::ISearch;
use gapedit::undo::{Command, UndoManager};

// Typing several characters with no intervening cursor movement coalesces
// into one undo unit: a single undo removes them all.
#[test]
fn test_undo_coalesces_adjacent_inserts() {
    let mut editor = Editor::new(String::from(""), String::from("t"));
    let _ = editor.update(Message::Insert('a'));
    let _ = editor.update(Message::Insert('b'));
    let _ = editor.update(Message::Insert('c'));
    assert_eq!(editor.buffer.to_string(), "abc");

    let _ = editor.update(Message::Undo);
    assert_eq!(editor.buffer.to_string(), "");
    assert_eq!(editor.buffer.iptr, 0);
}

// Moving the cursor so that the next insert is no longer adjacent to the
// previous one breaks the coalescing chain: the next undo removes only the
// edit typed after the movement.
#[test]
fn test_undo_after_cursor_movement() {
    let mut editor = Editor::new(String::from(""), String::from("t"));
    let _ = editor.update(Message::Insert('a'));
    let _ = editor.update(Message::BackwardOneChar);
    let _ = editor.update(Message::Insert('b'));
    assert_eq!(editor.buffer.to_string(), "ba");

    let _ = editor.update(Message::Undo);
    assert_eq!(editor.buffer.to_string(), "a");
}

// Searching "o" in "hello world\n\nxin chao\n" yields [4, 7, 20] and
// fetch-next cycles 7 -> 20 -> 4 -> 7.
#[test]
fn test_isearch_match_offsets_and_cycle() {
    let buf = Buffer::init(String::from("hello world\n\nxin chao\n"));
    let mut se = ISearch::new();

    let first = se.run(&buf, Some('o'));
    assert_eq!(first, Some(4));
    assert_eq!(se.ids, vec![4, 7, 20]);

    assert_eq!(se.fetch_next(), Some(7));
    assert_eq!(se.fetch_next(), Some(20));
    assert_eq!(se.fetch_next(), Some(4));
    assert_eq!(se.fetch_next(), Some(7));
}

// Removing the last term character deactivates the search.
#[test]
fn test_isearch_empty_term_deactivates() {
    let buf = Buffer::init(String::from("abc"));
    let mut se = ISearch::new();
    let r = se.run(&buf, Some('b'));
    assert_eq!(r, Some(1));
    assert_eq!(se.term.len(), 1);

    let r = se.run(&buf, None);
    assert_eq!(r, None);
    assert!(se.ids.is_empty());
    assert!(se.term.is_empty());
}

// A search with no matches stays active with an empty match list.
#[test]
fn test_isearch_no_match() {
    let buf = Buffer::init(String::from("abc"));
    let mut se = ISearch::new();
    let r = se.run(&buf, Some('z'));
    assert_eq!(r, None);
    assert!(se.ids.is_empty());
    assert_eq!(se.fetch_next(), None);
}

// After save, is_modified() is false and is_saved() is true; the first
// subsequent edit flips both back.
#[test]
fn test_save_flags_round_trip() {
    let mut editor = Editor::new(String::from("hi"), String::from("t"));
    let _ = editor.update(Message::Insert('x'));
    assert!(editor.is_modified());
    assert!(!editor.is_saved());

    let bytes = editor.update(Message::Save);
    assert_eq!(bytes, Some(b"xhi".to_vec()));
    assert!(!editor.is_modified());
    assert!(editor.is_saved());

    let _ = editor.update(Message::Insert('y'));
    assert!(editor.is_modified());
    assert!(!editor.is_saved());
}

// Undo and redo on empty logs are silent no-ops.
#[test]
fn test_undo_redo_empty_logs() {
    let mut editor = Editor::new(String::from("abc"), String::from("t"));
    let _ = editor.update(Message::Undo);
    let _ = editor.update(Message::Redo);
    assert_eq!(editor.buffer.to_string(), "abc");
    assert_eq!(editor.buffer.iptr, 0);
}

// Cut-to-end-of-line removes the rest of the line; on an emptied line it
// splices the line into the previous one with one backward delete.
#[test]
fn test_cut_to_eol() {
    let mut editor = Editor::new(String::from("abc\ndef"), String::from("t"));
    let _ = editor.update(Message::ForwardOneChar);
    let _ = editor.update(Message::CutToEndOfLine);
    assert_eq!(editor.buffer.to_string(), "a\ndef");

    // cursor now at column 1; a second cut at column 0 of an empty line
    let mut editor2 = Editor::new(String::from("ab\n\ncd"), String::from("t"));
    let _ = editor2.update(Message::JumpToNextLine);
    assert_eq!(editor2.get_current_point(), (0, 1));
    let _ = editor2.update(Message::CutToEndOfLine);
    assert_eq!(editor2.buffer.to_string(), "ab\ncd");
}

// Tab inserts four spaces as one coalesced undo unit.
#[test]
fn test_insert_tab() {
    let mut editor = Editor::new(String::from("x"), String::from("t"));
    let _ = editor.update(Message::InsertTab);
    assert_eq!(editor.buffer.to_string(), "    x");
    let _ = editor.update(Message::Undo);
    assert_eq!(editor.buffer.to_string(), "x");
}

// The help popup swallows every message except its own toggle.
#[test]
fn test_popup_gates_messages() {
    let mut editor = Editor::new(String::from("a"), String::from("t"));
    let _ = editor.update(Message::UserManual);
    assert!(editor.is_in_manual_popup());
    let _ = editor.update(Message::Insert('z'));
    assert_eq!(editor.buffer.to_string(), "a");
    let _ = editor.update(Message::UserManual);
    assert!(!editor.is_in_manual_popup());
    let _ = editor.update(Message::Insert('z'));
    assert_eq!(editor.buffer.to_string(), "za");
}

// Direct engine-level coalescing: two adjacent backward deletes merge into
// one command whose undo restores both characters at once.
#[test]
fn test_undo_manager_merges_delete_before() {
    let mut buf = Buffer::init(String::from("ab"));
    let mut mgr = UndoManager::new();
    buf.jump(2);

    let d1 = buf.delete_before_ptr().unwrap();
    let p1 = buf.iptr;
    mgr.push(Command::DeleteBefore((p1, d1)));

    let d2 = buf.delete_before_ptr().unwrap();
    let p2 = buf.iptr;
    mgr.push(Command::DeleteBefore((p2, d2)));

    assert_eq!(buf.to_string(), "");
    mgr.undo(&mut buf);
    assert_eq!(buf.to_string(), "ab");
    mgr.undo(&mut buf);
    assert_eq!(buf.to_string(), "ab");
}

// The viewport scroll formula: jumping below the window snaps the top to
// the cursor row; scrolling above retreats by half a page, clamped.
#[test]
fn test_make_cursor_visible() {
    let mut editor = Editor::new(String::from(""), String::from("t"));
    let cell = editor.make_cursor_visible((3, 12), 10);
    assert_eq!(editor.top, 12);
    assert_eq!(cell, (3, 0));

    let cell = editor.make_cursor_visible((0, 4), 10);
    assert_eq!(editor.top, 4);
    assert_eq!(cell, (0, 0));

    let cell = editor.make_cursor_visible((2, 6), 10);
    assert_eq!(editor.top, 4);
    assert_eq!(cell, (2, 2));
}

// The undo of a multibyte backward delete restores the bytes in document
// order.
#[test]
fn test_multibyte_delete_undo() {
    let mut editor = Editor::new(String::from(""), String::from("t"));
    let _ = editor.update(Message::Insert('é'));
    let _ = editor.update(Message::Insert('ü'));
    assert_eq!(editor.buffer.to_string(), "éü");
    let _ = editor.update(Message::DeleteBeforeCursor);
    assert_eq!(editor.buffer.to_string(), "é");
    let _ = editor.update(Message::Undo);
    assert_eq!(editor.buffer.to_string(), "éü");
}

// Deleting the codepoint before the cursor and re-typing the returned
// bytes character-by-character restores content and cursor.
#[test]
fn test_delete_before_then_retype() {
    let mut buf = Buffer::init(String::from("héllo"));
    buf.jump(3);
    let prev = buf.iptr;
    let removed = buf.delete_before_ptr().unwrap();
    let s = String::from_utf8(removed).unwrap();
    for c in s.chars() {
        buf.insert(c);
    }
    assert_eq!(buf.to_string(), "héllo");
    assert_eq!(buf.iptr, prev);
}

// A batch of inserts and deletes followed by the same number of undos
// returns content and cursor exactly to their starting values.
#[test]
fn test_edits_then_undos_restore() {
    let mut editor = Editor::new(String::from("base"), String::from("t"));
    let ops = [
        Message::Insert('x'),
        Message::DeleteUnderCursor,
        Message::Insert('y'),
        Message::InsertNewLine,
        Message::DeleteBeforeCursor,
    ];
    for m in ops {
        let _ = editor.update(m);
    }
    for _ in 0..ops.len() {
        let _ = editor.update(Message::Undo);
    }
    assert_eq!(editor.buffer.to_string(), "base");
    assert_eq!(editor.buffer.iptr, 0);
}
