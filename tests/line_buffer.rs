use line_editor::segment::is_word_boundary;
use line_editor::{InvalidPosition, LineBuffer};

fn buffer_with(text: &str) -> LineBuffer {
    let mut b = LineBuffer::new();
    b.set_buffer(text.to_string());
    b.move_to_end();
    b
}

#[test]
fn emoji_test() {
    let face = "😊";
    let facepalm = "🤦🏼‍♂️";
    let mut b = buffer_with(face);
    assert_eq!(b.get_insertion_point(), 4);
    b.dec_insertion_point();
    assert_eq!(b.get_insertion_point(), 0);
    b.inc_insertion_point();
    assert_eq!(b.get_insertion_point(), 4);

    let mut b = buffer_with(facepalm);
    let len = facepalm.len();
    assert_eq!(b.get_buffer_len(), len);
    b.dec_insertion_point();
    assert_eq!(b.get_insertion_point(), 0);
    b.inc_insertion_point();
    assert_eq!(b.get_insertion_point(), len);
}

#[test]
fn new_buffer_is_empty() {
    let b = LineBuffer::new();
    assert!(b.is_empty());
    assert_eq!(b.get_buffer(), "");
    assert_eq!(b.get_insertion_point(), 0);
    assert_eq!(b.get_buffer_len(), 0);
}

#[test]
fn step_left_then_right_returns() {
    let mut b = buffer_with("ab🇷🇺c");
    b.set_insertion_point(10).unwrap();
    b.dec_insertion_point();
    assert_eq!(b.get_insertion_point(), 2);
    b.inc_insertion_point();
    assert_eq!(b.get_insertion_point(), 10);
    b.set_insertion_point(1).unwrap();
    b.dec_insertion_point();
    b.inc_insertion_point();
    assert_eq!(b.get_insertion_point(), 1);
}

#[test]
fn flag_is_one_step() {
    let mut b = buffer_with("a🇷🇺🇸🇹b");
    b.set_insertion_point(1).unwrap();
    b.inc_insertion_point();
    assert_eq!(b.get_insertion_point(), 9);
    b.inc_insertion_point();
    assert_eq!(b.get_insertion_point(), 17);
    b.dec_insertion_point();
    assert_eq!(b.get_insertion_point(), 9);
    b.dec_insertion_point();
    assert_eq!(b.get_insertion_point(), 1);
}

#[test]
fn combining_accent_is_one_step() {
    let mut b = buffer_with("e\u{301}x");
    b.set_insertion_point(0).unwrap();
    b.inc_insertion_point();
    assert_eq!(b.get_insertion_point(), 3);
}

#[test]
fn steps_saturate_at_the_ends() {
    let mut b = buffer_with("ab");
    b.inc_insertion_point();
    assert_eq!(b.get_insertion_point(), 2);
    b.set_insertion_point(0).unwrap();
    b.dec_insertion_point();
    assert_eq!(b.get_insertion_point(), 0);
    let mut e = LineBuffer::new();
    e.inc_insertion_point();
    assert_eq!(e.get_insertion_point(), 0);
    e.dec_insertion_point();
    assert_eq!(e.get_insertion_point(), 0);
}

#[test]
fn set_insertion_point_rejects_bad_offsets() {
    let mut b = buffer_with("é!");
    assert_eq!(b.set_insertion_point(1), Err(InvalidPosition { pos: 1 }));
    assert_eq!(b.get_insertion_point(), 3);
    assert_eq!(b.set_insertion_point(4), Err(InvalidPosition { pos: 4 }));
    assert_eq!(b.set_insertion_point(2), Ok(()));
    assert_eq!(b.get_insertion_point(), 2);
}

#[test]
fn set_buffer_keeps_or_moves_the_point() {
    let mut b = buffer_with("hello");
    b.set_insertion_point(2).unwrap();
    b.set_buffer("world".to_string());
    assert_eq!(b.get_insertion_point(), 2);
    b.set_buffer("é".to_string());
    assert_eq!(b.get_insertion_point(), 2);
    b.set_insertion_point(0).unwrap();
    b.set_buffer("xé".to_string());
    b.set_insertion_point(2).unwrap_err();
    b.set_insertion_point(3).unwrap();
    b.set_buffer("ab".to_string());
    assert_eq!(b.get_insertion_point(), 2);
    assert_eq!(b.move_to_end(), 2);
}

#[test]
fn insert_char_before_point_shifts_it() {
    let mut b = buffer_with("ac");
    b.insert_char(1, 'é').unwrap();
    assert_eq!(b.get_buffer(), "aéc");
    assert_eq!(b.get_insertion_point(), 4);
    b.insert_char(4, 'z').unwrap();
    assert_eq!(b.get_buffer(), "aécz");
    assert_eq!(b.get_insertion_point(), 4);
    assert_eq!(b.insert_char(2, 'x'), Err(InvalidPosition { pos: 2 }));
    assert_eq!(b.insert_char(9, 'x'), Err(InvalidPosition { pos: 9 }));
    assert_eq!(b.get_buffer(), "aécz");
}

#[test]
fn insert_str_at_offsets() {
    let mut b = buffer_with("world");
    b.insert_str(0, "hello ").unwrap();
    assert_eq!(b.get_buffer(), "hello world");
    assert_eq!(b.get_insertion_point(), 11);
    b.insert_str(11, "!").unwrap();
    assert_eq!(b.get_buffer(), "hello world!");
    assert_eq!(b.get_insertion_point(), 11);
    assert_eq!(b.insert_str(13, "x"), Err(InvalidPosition { pos: 13 }));
}

#[test]
fn remove_char_returns_the_character() {
    let mut b = buffer_with("aéb");
    assert_eq!(b.remove_char(1), Ok('é'));
    assert_eq!(b.get_buffer(), "ab");
    assert_eq!(b.get_insertion_point(), 2);
    assert_eq!(b.remove_char(2), Err(InvalidPosition { pos: 2 }));
    assert_eq!(b.remove_char(0), Ok('a'));
    assert_eq!(b.get_buffer(), "b");
    let mut c = buffer_with("é");
    assert_eq!(c.remove_char(1), Err(InvalidPosition { pos: 1 }));
}

#[test]
fn pop_removes_last_character() {
    let mut b = buffer_with("xé");
    b.set_insertion_point(0).unwrap();
    assert_eq!(b.pop(), Some('é'));
    assert_eq!(b.get_buffer(), "x");
    assert_eq!(b.get_insertion_point(), 1);
    assert_eq!(b.pop(), Some('x'));
    assert_eq!(b.pop(), None);
    assert_eq!(b.get_insertion_point(), 0);
}

#[test]
fn clearing() {
    let mut b = buffer_with("hello world");
    b.set_insertion_point(5).unwrap();
    b.clear_to_end();
    assert_eq!(b.get_buffer(), "hello");
    assert_eq!(b.get_insertion_point(), 5);
    b.set_insertion_point(2).unwrap();
    b.clear_to_insertion_point();
    assert_eq!(b.get_buffer(), "llo");
    assert_eq!(b.get_insertion_point(), 0);
    b.clear();
    assert_eq!(b.get_buffer(), "");
    assert_eq!(b.get_insertion_point(), 0);
}

#[test]
fn clear_range_moves_the_point() {
    let mut b = buffer_with("abcdef");
    b.clear_range(1..3).unwrap();
    assert_eq!(b.get_buffer(), "adef");
    assert_eq!(b.get_insertion_point(), 4);
    b.set_insertion_point(2).unwrap();
    b.clear_range(1..3).unwrap();
    assert_eq!(b.get_buffer(), "af");
    assert_eq!(b.get_insertion_point(), 1);
    b.clear_range(0..0).unwrap();
    assert_eq!(b.get_buffer(), "af");
    assert_eq!(b.clear_range(2..1), Err(InvalidPosition { pos: 1 }));
    assert_eq!(b.clear_range(0..3), Err(InvalidPosition { pos: 3 }));
    let mut c = buffer_with("é");
    assert_eq!(c.clear_range(1..2), Err(InvalidPosition { pos: 1 }));
    assert_eq!(c.get_buffer(), "é");
}

#[test]
fn get_range_copies_text() {
    let b = buffer_with("héllo");
    assert_eq!(b.get_range(1, 4), Ok("él".to_string()));
    assert_eq!(b.get_range(2, 4), Err(InvalidPosition { pos: 2 }));
    assert_eq!(b.get_buffer(), "héllo");
}

#[test]
fn word_moves_left() {
    let mut b = buffer_with("foo bar baz");
    assert_eq!(b.move_word_left(), 8);
    assert_eq!(b.move_word_left(), 4);
    assert_eq!(b.move_word_left(), 0);
    assert_eq!(b.move_word_left(), 0);
}

#[test]
fn word_moves_right() {
    let mut b = buffer_with("foo, bar!");
    b.set_insertion_point(0).unwrap();
    assert_eq!(b.move_word_right(), 3);
    assert_eq!(b.move_word_right(), 8);
    assert_eq!(b.move_word_right(), 9);
    assert_eq!(b.move_word_right(), 9);
}

#[test]
fn word_moves_from_inside_a_word() {
    let mut b = buffer_with("alpha beta");
    b.set_insertion_point(8).unwrap();
    assert_eq!(b.move_word_left(), 6);
    b.set_insertion_point(8).unwrap();
    assert_eq!(b.move_word_right(), 10);
}

#[test]
fn word_moves_without_words() {
    let mut b = buffer_with("  ...  ");
    b.set_insertion_point(3).unwrap();
    assert_eq!(b.move_word_left(), 0);
    b.set_insertion_point(3).unwrap();
    assert_eq!(b.move_word_right(), 7);
}

#[test]
fn word_boundary_pieces() {
    assert!(is_word_boundary(" "));
    assert!(is_word_boundary(",.!"));
    assert!(is_word_boundary(""));
    assert!(!is_word_boundary("abc"));
    assert!(!is_word_boundary("42"));
    assert!(!is_word_boundary("é"));
}
