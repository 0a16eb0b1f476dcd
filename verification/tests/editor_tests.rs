use gapedit::editor::{Editor, Message};

#[test]
fn test_editor_viewable_contents_1() {
    let buffer = String::from("Hello world\nThis is a test\nGood night!\n");
    let path = String::from("dummy.txt");
    let mut editor = Editor::new(buffer, path);
    editor.forward_one_char();
    editor.forward_one_char();

    assert_eq!(editor.viewable_contents(1).to_string(), "Hello world");
    assert_eq!(
        editor.viewable_contents(2).to_string(),
        "Hello world\nThis is a test"
    );
    assert_eq!(
        editor.viewable_contents(3).to_string(),
        "Hello world\nThis is a test\nGood night!"
    );

    editor.top = 1;
    assert_eq!(editor.viewable_contents(1).to_string(), "This is a test");
    assert_eq!(
        editor.viewable_contents(2).to_string(),
        "This is a test\nGood night!"
    );
    assert_eq!(
        editor.viewable_contents(3).to_string(),
        "This is a test\nGood night!"
    );

    editor.top = 2;
    assert_eq!(editor.viewable_contents(1).to_string(), "Good night!");
    assert_eq!(editor.viewable_contents(2).to_string(), "Good night!");
    assert_eq!(editor.viewable_contents(3).to_string(), "Good night!");
}

#[test]
fn test_editor_viewable_contents_2() {
    let buffer = String::from("");
    let path = String::from("dummy.txt");
    let mut editor = Editor::new(buffer, path);
    editor.insert_char('a');
    editor.backward_one_char();
    editor.forward_one_char();

    assert_eq!(editor.viewable_contents(43).to_string(), "a");
}

#[test]
fn test_editor_viewable_contents_3() {
    let buffer = String::from("mod buffer;\n\nBufReader");
    let path = String::from("test_tmp.txt");
    let mut editor = Editor::new(buffer, path);
    println!("{}", editor.viewable_contents(43).to_string());

    editor.toggle_prompt();
    editor.insert_char('B');
    editor.insert_char('u');

    println!("{}", editor.viewable_contents(43).to_string());
}

#[test]
fn test_editor_jump_to_bol_1() {
    let buffer = String::from("");
    let path = String::from("dummy.txt");
    let mut editor = Editor::new(buffer, path);
    editor.jump_to_bol();

    assert_eq!(editor.buffer.iptr, 0);
    assert_eq!(editor.get_current_point(), (0, 0));
}

#[test]
fn test_editor_jump_to_bol_2() {
    let buffer = String::from("a");
    let path = String::from("dummy.txt");
    let mut editor = Editor::new(buffer, path);
    editor.jump_to_bol();

    assert_eq!(editor.buffer.iptr, 0);
    assert_eq!(editor.get_current_point(), (0, 0));

    editor.forward_one_char();
    assert_eq!(editor.buffer.iptr, 1);
    assert_eq!(editor.get_current_point(), (1, 0));

    editor.jump_to_bol();
    assert_eq!(editor.buffer.iptr, 0);
    assert_eq!(editor.get_current_point(), (0, 0));
}

#[test]
fn test_editor_jump_to_next_line_1() {
    let buffer = String::from("aaaaaaa\n\naaa\n");
    let path = String::from("dummy.txt");
    let mut editor = Editor::new(buffer, path);

    editor.forward_one_char();
    editor.jump_to_next_line();
    assert_eq!(editor.get_current_point(), (0, 1));
}

#[test]
fn test_editor_jump_to_previous_line_1() {
    let buffer = String::from("aaaa\n\na\n");
    let path = String::from("dummy.txt");
    let mut editor = Editor::new(buffer, path);

    editor.jump_to_next_line();
    editor.jump_to_next_line();

    editor.jump_to_previous_line();
    assert_eq!(editor.get_current_point(), (0, 1));
}

#[test]
fn test_editor_isearch() {
    let buffer = String::from("hello world\n\nxin chao\n");
    let path = String::from("test_tmp");
    let mut editor = Editor::new(buffer, path);

    editor.toggle_prompt();
    assert!(editor.isearch.ids.is_empty());

    let _ = editor.update(Message::Insert('o'));
    assert_eq!(editor.isearch.ids, vec![4, 7, 20]);

    let p = editor.get_current_point();
    assert_eq!(p, (4, 0));

    let _ = editor.update(Message::InsertNewLine);
    let p = editor.get_current_point();
    assert_eq!(p, (7, 0));

    let _ = editor.update(Message::InsertNewLine);
    let p = editor.get_current_point();
    assert_eq!(p, (7, 2));

    let _ = editor.update(Message::InsertNewLine);
    let p = editor.get_current_point();
    assert_eq!(p, (4, 0));

    editor.toggle_prompt();
    let _ = editor.update(Message::Insert('z'));
    assert_eq!(editor.buffer.to_string(), "hellzo world\n\nxin chao\n");
}

#[test]
fn test_editor_redo() {
    let buffer = String::from("hello world");
    let path = String::from("test_tmp");
    let mut editor = Editor::new(buffer, path);

    let _ = editor.update(Message::JumpToEndOfLine);
    let _ = editor.update(Message::DeleteBeforeCursor);
    let _ = editor.update(Message::DeleteBeforeCursor);
    let _ = editor.update(Message::InsertNewLine);
    let _ = editor.update(Message::Undo);
    let _ = editor.update(Message::Redo);
    let _ = editor.update(Message::ForwardOneChar);

    assert_eq!(editor.buffer.to_string(), "hello wor\n");
}
