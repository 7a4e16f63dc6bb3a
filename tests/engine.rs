use line_editor::{EditCommand, Engine, InvalidPosition};

fn engine_with(text: &str) -> Engine {
    let mut e = Engine::new();
    e.set_buffer(text.to_string());
    e.move_to_end();
    e
}

#[test]
fn backspace_five_times_from_end() {
    let mut e = engine_with("hello world");
    assert_eq!(e.get_insertion_point(), 11);
    e.run_edit_commands(&[EditCommand::Backspace; 5]);
    assert_eq!(e.get_buffer(), "hello ");
    assert_eq!(e.get_insertion_point(), 6);
}

#[test]
fn delete_on_empty_is_noop() {
    let mut e = Engine::new();
    e.run_edit_commands(&[EditCommand::Delete]);
    assert_eq!(e.get_buffer(), "");
    assert_eq!(e.get_insertion_point(), 0);
}

#[test]
fn backspace_on_empty_and_at_start_is_noop() {
    let mut e = Engine::new();
    e.run_edit_commands(&[EditCommand::Backspace]);
    assert_eq!(e.get_buffer(), "");
    let mut e = engine_with("ab");
    e.run_edit_commands(&[EditCommand::MoveToStart, EditCommand::Backspace]);
    assert_eq!(e.get_buffer(), "ab");
    assert_eq!(e.get_insertion_point(), 0);
}

#[test]
fn backspace_in_the_middle() {
    let mut e = engine_with("abc");
    e.run_edit_commands(&[EditCommand::MoveLeft, EditCommand::Backspace]);
    assert_eq!(e.get_buffer(), "ac");
    assert_eq!(e.get_insertion_point(), 1);
}

#[test]
fn backspace_at_end_pops_one_character() {
    let mut e = engine_with("aé");
    e.run_edit_commands(&[EditCommand::Backspace]);
    assert_eq!(e.get_buffer(), "a");
    assert_eq!(e.get_insertion_point(), 1);
}

#[test]
fn delete_in_the_middle_keeps_the_point() {
    let mut e = engine_with("abc");
    e.run_edit_commands(&[EditCommand::MoveToStart, EditCommand::MoveRight, EditCommand::Delete]);
    assert_eq!(e.get_buffer(), "ac");
    assert_eq!(e.get_insertion_point(), 1);
    e.run_edit_commands(&[EditCommand::MoveToEnd, EditCommand::Delete]);
    assert_eq!(e.get_buffer(), "ac");
    assert_eq!(e.get_insertion_point(), 2);
}

#[test]
fn insert_char_goes_in_at_the_point() {
    let mut e = engine_with("ac");
    e.run_edit_commands(&[EditCommand::MoveLeft, EditCommand::InsertChar('b')]);
    assert_eq!(e.get_buffer(), "abc");
    assert_eq!(e.get_insertion_point(), 1);
}

#[test]
fn word_commands() {
    let mut e = engine_with("foo bar baz");
    e.run_edit_commands(&[EditCommand::MoveWordLeft, EditCommand::MoveWordLeft]);
    assert_eq!(e.get_insertion_point(), 4);
    e.run_edit_commands(&[EditCommand::MoveWordRight]);
    assert_eq!(e.get_insertion_point(), 7);
}

#[test]
fn word_left_scenario() {
    let mut e = engine_with("foo bar baz");
    assert_eq!(e.move_word_left(), 8);
    assert_eq!(e.move_word_left(), 4);
    assert_eq!(e.move_word_left(), 0);
    assert_eq!(e.move_word_left(), 0);
}

#[test]
fn word_right_reaches_end_and_stays() {
    let mut e = engine_with("one two  three");
    e.set_insertion_point(0).unwrap();
    let len = e.get_buffer_len();
    let mut last = 0;
    for _ in 0..len + 1 {
        let p = e.move_word_right();
        assert!(p >= last);
        last = p;
    }
    assert_eq!(last, len);
    assert_eq!(e.move_word_right(), len);
}

#[test]
fn word_left_reaches_start_from_anywhere() {
    let text = "a-b c.d  e";
    for start in 0..=text.len() {
        let mut e = engine_with(text);
        e.set_insertion_point(start).unwrap();
        for _ in 0..=start {
            e.move_word_left();
        }
        assert_eq!(e.get_insertion_point(), 0);
    }
}

#[test]
fn engine_forwards_to_the_buffer() {
    let mut e = engine_with("xy");
    assert!(!e.is_empty());
    e.insert_char(0, 'w').unwrap();
    e.insert_str(3, "z").unwrap();
    assert_eq!(e.get_buffer(), "wxyz");
    assert_eq!(e.remove_char(1), Ok('x'));
    assert_eq!(e.pop(), Some('z'));
    assert_eq!(e.get_buffer(), "wy");
    e.set_insertion_point(1).unwrap();
    e.clear_to_end();
    assert_eq!(e.get_buffer(), "w");
    e.insert_str(1, "abc").unwrap();
    e.set_insertion_point(2).unwrap();
    e.clear_to_insertion_point();
    assert_eq!(e.get_buffer(), "bc");
    e.clear_range(0..1).unwrap();
    assert_eq!(e.get_buffer(), "c");
    assert_eq!(e.get_range(0, 1), Ok("c".to_string()));
    e.inc_insertion_point();
    assert_eq!(e.get_insertion_point(), 1);
    e.dec_insertion_point();
    assert_eq!(e.get_insertion_point(), 0);
    assert_eq!(e.set_insertion_point(5), Err(InvalidPosition { pos: 5 }));
    e.clear();
    assert!(e.is_empty());
}
