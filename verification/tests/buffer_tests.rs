use gapedit::buffer::{Buffer, DEFAULT_GAP_LEN};

#[test]
fn test_buffer_init_1() {
    let buf = Buffer::init(String::from("a bc"));
    assert_eq!(buf.to_string(), "a bc");
    assert_eq!(&buf.bytes[..DEFAULT_GAP_LEN], [0; DEFAULT_GAP_LEN]);
    assert_eq!(buf.iptr, 0);
    assert_eq!(buf.gap_len, DEFAULT_GAP_LEN);
}

#[test]
fn test_buffer_init_2() {
    let buf = Buffer::init(String::from(""));
    assert_eq!(buf.to_string(), "");
    assert_eq!(&buf.bytes[..DEFAULT_GAP_LEN], [0; DEFAULT_GAP_LEN]);
    assert_eq!(buf.iptr, 0);
    assert_eq!(buf.gap_len, DEFAULT_GAP_LEN);
}

#[test]
fn test_buffer_insert_1() {
    let mut buf = Buffer::init(String::from("a"));
    buf.insert('b');
    assert_eq!(buf.to_string(), "ba");
    assert_eq!(buf.iptr, 1);
    assert_eq!(buf.gap_len, 1023);

    buf.insert('🧑');
    assert_eq!(buf.to_string(), "b🧑a");
    assert_eq!(buf.iptr, 5);
    assert_eq!(buf.gap_len, 1019);
}

#[test]
fn test_buffer_insert_2() {
    let mut buf = Buffer::init(String::from("s"));
    for _ in 0..819 {
        buf.insert('a');
    }

    assert_eq!(buf.bytes.len(), 2050); // (1 + DEFAULT_GAP_LEN) * 2
    assert_eq!(buf.gap_len, 1230); // (1 + DEFAULT_GAP_LEN) + (DEFAULT_GAP_LEN - 819)
    assert_eq!(buf.iptr, 819);
    assert_eq!(buf.bytes[buf.iptr + buf.gap_len], b's');
}

#[test]
fn test_buffer_delete_before_ptr_1() {
    let mut buf = Buffer::init(String::from(""));
    let gap_len = buf.gap_len;
    buf.insert('🧑'); // 4-byte char

    buf.delete_before_ptr();
    assert_eq!(buf.iptr, 0);
    assert_eq!(buf.to_string(), "");
    assert_eq!(buf.gap_len, gap_len);
}

#[test]
fn test_buf_delete_before_ptr_2() {
    let mut buf = Buffer::init(String::from(""));
    let gap_len = buf.gap_len;
    buf.insert('🧑'); // 4-byte char
    buf.insert('a');

    buf.delete_before_ptr();
    assert_eq!(buf.iptr, 4);
    assert_eq!(buf.to_string(), "🧑");
    assert_eq!(buf.gap_len, gap_len - 4);
}

#[test]
fn test_buf_delete_before_ptr_3() {
    let mut buf = Buffer::init(String::from(""));
    let gap_len = buf.gap_len;
    buf.insert('a');
    buf.insert('🧑'); // 4-byte char

    buf.delete_before_ptr();
    assert_eq!(buf.iptr, 1);
    assert_eq!(buf.to_string(), "a");
    assert_eq!(buf.gap_len, gap_len - 1);
}

#[test]
fn test_buf_delete_before_ptr_4() {
    let mut buf = Buffer::init(String::from("a"));
    let gap_len = buf.gap_len;

    buf.delete_before_ptr();
    assert_eq!(buf.iptr, 0);
    assert_eq!(buf.to_string(), "a");
    assert_eq!(buf.gap_len, gap_len);
}

#[test]
fn test_buf_revert_delete_1() {
    let mut buf = Buffer::init(String::from(""));
    buf.insert('a');
    buf.insert('b');
    buf.insert('c');
    let prev_iptr = buf.iptr;
    let n = buf.delete_before_ptr().unwrap();

    buf.move_ptr_backward();
    buf.move_ptr_backward();
    assert_eq!(buf.to_string(), "ab");

    buf.revert_delete_before_ptr(prev_iptr, &n);
    assert_eq!(buf.to_string(), "abc");
}

#[test]
fn test_buf_revert_delete_4() {
    let mut buf = Buffer::init(String::from("hello"));
    for _ in 0..4 {
        buf.move_ptr_forward();
    }

    let n = buf.delete_after_ptr().unwrap();
    let prev_iptr = buf.iptr;
    assert_eq!(buf.to_string(), "hell");

    for _ in 0..5 {
        buf.move_ptr_backward();
    }

    buf.revert_delete_after_ptr(prev_iptr, &n);
    assert_eq!(buf.to_string(), "hello");
}

#[test]
fn test_buf_revert_delete_2() {
    let mut buf = Buffer::init(String::from("hello"));

    for _ in 0..5 {
        buf.move_ptr_forward();
    }

    let n = buf.delete_before_ptr().unwrap();
    let prev = buf.iptr;

    for _ in 0..5 {
        buf.move_ptr_backward();
    }

    buf.revert_delete_before_ptr(prev, &n);
    assert_eq!(buf.to_string(), "hello");
}

#[test]
fn test_buf_revert_delete_3() {
    let mut buf = Buffer::init(String::from("ab"));
    buf.move_ptr_forward();

    let n = buf.delete_before_ptr().unwrap();
    let prev_iptr = buf.iptr;

    buf.move_ptr_forward();
    assert_eq!(buf.to_string(), "b");

    buf.revert_delete_before_ptr(prev_iptr, &n);
    assert_eq!(buf.to_string(), "ab");
}

#[test]
fn test_buf_delete_before_ptr_5() {
    let mut buf = Buffer::init(String::from(""));
    buf.insert('a');
    buf.insert('\u{1F9D1}');
    buf.insert('\u{200D}');
    buf.insert('\u{1F33E}');
    buf.insert('b');

    buf.delete_before_ptr();
    assert_eq!(buf.to_string(), "a🧑\u{200D}🌾");

    buf.delete_before_ptr();
    assert_eq!(buf.to_string(), "a🧑\u{200D}");

    buf.delete_before_ptr();
    assert_eq!(buf.to_string(), "a🧑");

    buf.delete_before_ptr();
    assert_eq!(buf.to_string(), "a");

    buf.delete_before_ptr();
    assert_eq!(buf.to_string(), "");

    assert_eq!(buf.iptr, 0);
}

#[test]
fn test_buf_delete_after_ptr_1() {
    let mut buf = Buffer::init(String::from("🧑"));
    let gap_len = buf.gap_len;
    assert_eq!(buf.iptr, 0);

    buf.delete_after_ptr();
    assert_eq!(buf.iptr, 0);
    assert_eq!(buf.to_string(), "");
    assert_eq!(buf.gap_len, gap_len + 4);

    buf.insert('a');
    buf.delete_after_ptr();
}

#[test]
fn test_buf_delete_after_ptr_2() {
    let mut buf = Buffer::init(String::from("a"));
    let gap_len = buf.gap_len;
    assert_eq!(buf.iptr, 0);

    buf.delete_after_ptr();
    assert_eq!(buf.iptr, 0);
    assert_eq!(buf.to_string(), "");
    assert_eq!(buf.gap_len, gap_len + 1);
}

#[test]
fn test_buf_delete_after_ptr_3() {
    let mut buf = Buffer::init(String::from(""));
    let gap_len = buf.gap_len;
    assert_eq!(buf.iptr, 0);

    buf.delete_after_ptr();
    assert_eq!(buf.iptr, 0);
    assert_eq!(buf.to_string(), "");
    assert_eq!(buf.gap_len, gap_len);
}

#[test]
fn test_buf_delete_after_ptr_4() {
    let mut buf = Buffer::init(String::from("hel🧑\u{200D}🌾"));
    assert_eq!(buf.iptr, 0);

    buf.delete_after_ptr();
    assert_eq!(buf.to_string(), "el🧑\u{200D}🌾");

    buf.delete_after_ptr();
    assert_eq!(buf.to_string(), "l🧑\u{200D}🌾");

    buf.delete_after_ptr();
    assert_eq!(buf.to_string(), "🧑\u{200D}🌾");

    buf.delete_after_ptr();
    // \u{200D} is a zero-width joiner codepoint
    assert_eq!(buf.to_string(), "\u{200D}🌾");

    buf.delete_after_ptr();
    assert_eq!(buf.to_string(), "🌾");

    buf.delete_after_ptr();
    assert_eq!(buf.to_string(), "");
}

#[test]
fn test_buf_move_ptr_forward_1() {
    let mut buf = Buffer::init(String::from(""));
    buf.move_ptr_forward();
    assert_eq!(buf.iptr, 0);
}

#[test]
fn test_buf_move_ptr_forward_2() {
    let mut buf = Buffer::init(String::from("a"));
    buf.move_ptr_forward();
    assert_eq!(buf.iptr, 1);
    assert_eq!(buf.to_string(), "a");
}

#[test]
fn test_buf_move_ptr_forward_3() {
    let mut buf = Buffer::init(String::from("a"));
    buf.insert('b');
    buf.move_ptr_forward();
    assert_eq!(buf.iptr, 2);
    assert_eq!(buf.to_string(), "ba");
    buf.insert('c');
    assert_eq!(buf.to_string(), "bac");
}

#[test]
fn test_buf_move_ptr_backward_1() {
    let mut buf = Buffer::init(String::from(""));
    buf.move_ptr_backward();
    assert_eq!(buf.iptr, 0);
}

#[test]
fn test_buf_move_ptr_backward_2() {
    let mut buf = Buffer::init(String::from("a"));
    buf.move_ptr_backward();
    assert_eq!(buf.iptr, 0);
}

#[test]
fn test_buf_move_ptr_backward_3() {
    let mut buf = Buffer::init(String::from("a"));
    buf.move_ptr_forward();
    buf.move_ptr_backward();
    assert_eq!(buf.iptr, 0);
}

#[test]
fn test_buf_iter_1() {
    let mut buf = Buffer::init(String::from(""));
    buf.insert('a');
    buf.move_ptr_backward();
    buf.move_ptr_forward();

    let mut it = buf.iter();
    while let Some(b) = it.next() {
        assert_eq!(b, b'a');
    }
}

#[test]
fn test_buf_iter_2() {
    let mut buf = Buffer::init(String::from("h🌾el"));
    buf.move_ptr_forward();
    buf.move_ptr_forward();

    let mut collected: Vec<u8> = Vec::new();
    let mut it = buf.iter();
    while let Some(b) = it.next() {
        collected.push(b);
    }
    assert_eq!(collected, "h🌾el".as_bytes());
}

#[test]
fn test_buf_iter_seek() {
    let buf = Buffer::init(String::from("hello"));
    let mut it = buf.iter();
    it.seek(3);
    assert_eq!(it.next(), Some(b'l'));
    assert_eq!(it.next(), Some(b'o'));
    assert_eq!(it.next(), None);
}

#[test]
fn test_buf_revert_insert() {
    let mut buf = Buffer::init(String::from("world"));
    let prev = buf.iptr;
    buf.insert('h');
    buf.insert('i');
    assert_eq!(buf.to_string(), "hiworld");
    buf.revert_insert(prev, 2);
    assert_eq!(buf.to_string(), "world");
    assert_eq!(buf.iptr, 0);
}

#[test]
fn test_buf_slices() {
    let mut buf = Buffer::init(String::from("abc"));
    buf.move_ptr_forward();
    assert_eq!(buf.before_insertion_point(), b"a");
    assert_eq!(buf.after_insertion_point(), b"bc");
    assert_eq!(buf.content_vec(), b"abc".to_vec());
}
